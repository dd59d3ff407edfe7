//! Splitting and joining of text on single spaces.

use vstd::prelude::*;
use vstd::string::StrSliceExecFns;
use vstd::string::StringExecFns;

verus! {

/// The texts that a sequence of strings holds, one for one.
pub open spec fn texts(v: Seq<String>) -> Seq<Seq<char>> {
    Seq::new(v.len(), |i: int| v[i]@)
}

/// The pieces of `s` between its spaces, in order. Every space ends one piece
/// and begins the next, so a text with `n` spaces has `n + 1` pieces, some of
/// which may be empty.
pub open spec fn pieces(s: Seq<char>) -> Seq<Seq<char>>
    decreases s.len(),
{
    if s.len() == 0 {
        seq![Seq::<char>::empty()]
    } else {
        let before = pieces(s.drop_last());
        if s.last() == ' ' {
            before.push(Seq::<char>::empty())
        } else {
            before.update(before.len() - 1, before.last().push(s.last()))
        }
    }
}

/// The texts of `t` written one after the other with a single space between
/// each two neighbours.
pub open spec fn joined(t: Seq<Seq<char>>) -> Seq<char>
    decreases t.len(),
{
    if t.len() == 0 {
        Seq::<char>::empty()
    } else if t.len() == 1 {
        t[0]
    } else {
        joined(t.drop_last()).push(' ') + t.last()
    }
}

/// No character of `s` is a space.
pub open spec fn spaceless(s: Seq<char>) -> bool {
    forall|j: int| 0 <= j < s.len() ==> s[j] != ' '
}

/// How `pieces` grows when one character is added at the end.
pub proof fn lemma_pieces_push(s: Seq<char>, c: char)
    ensures
        pieces(s).len() > 0,
        c == ' ' ==> pieces(s.push(c)) == pieces(s).push(Seq::<char>::empty()),
        c != ' ' ==> pieces(s.push(c)) == pieces(s).update(
            pieces(s).len() - 1,
            pieces(s).last().push(c),
        ),
    decreases s.len(),
{
    if s.len() > 0 {
        lemma_pieces_push(s.drop_last(), s.last());
    }
    assert(s.push(c).drop_last() =~= s);
}

/// Splits `s` at every single space.
pub fn split_spaces(s: &str) -> (tokens: Vec<String>)
    ensures
        texts(tokens@) == pieces(s@),
{
    let mut tokens: Vec<String> = Vec::new();
    let mut start: usize = 0;
    let mut i: usize = 0;
    let n: usize = s.unicode_len();
    proof {
        assert(s@.take(0) =~= Seq::<char>::empty());
        assert(texts(tokens@).push(s@.subrange(0, 0)) =~= pieces(s@.take(0)));
    }
    for c in it: s.chars()
        invariant
            n == s@.len(),
            it.seq() == s@,
            i == it.index(),
            start <= i <= n,
            texts(tokens@).push(s@.subrange(start as int, i as int)) == pieces(s@.take(i as int)),
    {
        let ghost done = texts(tokens@);
        let ghost open = s@.subrange(start as int, i as int);
        proof {
            lemma_pieces_push(s@.take(i as int), c);
            assert(s@.take(i as int).push(c) =~= s@.take(i + 1));
        }
        if c == ' ' {
            tokens.push(s.substring_char(start, i).to_owned());
            start = i + 1;
            proof {
                assert(texts(tokens@) =~= done.push(open));
                assert(s@.subrange(start as int, i + 1) =~= Seq::<char>::empty());
            }
        } else {
            proof {
                assert(s@.subrange(start as int, i + 1) =~= open.push(c));
                assert(done.push(open.push(c)) =~= done.push(open).update(
                    done.len() as int,
                    open.push(c),
                ));
            }
        }
        i = i + 1;
    }
    let ghost done = texts(tokens@);
    tokens.push(s.substring_char(start, i).to_owned());
    proof {
        assert(s@.take(i as int) =~= s@);
        assert(texts(tokens@) =~= done.push(s@.subrange(start as int, i as int)));
    }
    tokens
}

/// Splitting keeps every character: the pieces of a text, joined by single
/// spaces, are the text again, and no piece holds a space.
pub proof fn lemma_join_pieces(s: Seq<char>)
    ensures
        joined(pieces(s)) == s,
        forall|k: int| 0 <= k < pieces(s).len() ==> spaceless(#[trigger] pieces(s)[k]),
    decreases s.len(),
{
    if s.len() == 0 {
        assert(joined(pieces(s)) =~= s);
    } else {
        let head = s.drop_last();
        let c = s.last();
        let before = pieces(head);
        lemma_join_pieces(head);
        lemma_pieces_push(head, c);
        assert(head.push(c) =~= s);
        if c == ' ' {
            assert(before.push(Seq::<char>::empty()).drop_last() =~= before);
            assert(joined(pieces(s)) =~= s);
        } else {
            let grown = before.update(before.len() - 1, before.last().push(c));
            assert(grown.drop_last() =~= before.drop_last());
            assert(joined(grown) =~= joined(before).push(c));
            assert forall|k: int| 0 <= k < grown.len() implies spaceless(#[trigger] grown[k]) by {
                if k < before.len() - 1 {
                    assert(grown[k] == before[k]);
                } else {
                    assert(spaceless(before[k]));
                }
            }
        }
    }
}

/// Appending a text without spaces only lengthens the last piece.
proof fn lemma_pieces_append_spaceless(a: Seq<char>, b: Seq<char>)
    requires
        spaceless(b),
    ensures
        pieces(a).len() > 0,
        pieces(a + b) == pieces(a).update(pieces(a).len() - 1, pieces(a).last() + b),
    decreases b.len(),
{
    lemma_pieces_push(a, ' ');
    if b.len() == 0 {
        assert(a + b =~= a);
        assert(pieces(a).last() + b =~= pieces(a).last());
        assert(pieces(a) =~= pieces(a).update(pieces(a).len() - 1, pieces(a).last()));
    } else {
        let head = b.drop_last();
        lemma_pieces_append_spaceless(a, head);
        lemma_pieces_push(a + head, b.last());
        assert((a + head).push(b.last()) =~= a + b);
        assert(pieces(a).last() + head.push(b.last()) =~= (pieces(a).last() + head).push(b.last()));
        assert(head.push(b.last()) =~= b);
        assert(pieces(a + b) =~= pieces(a).update(pieces(a).len() - 1, pieces(a).last() + b));
    }
}

/// Splitting undoes joining: texts without spaces, at least one of them,
/// come back unchanged when their joined line is split. So a line has one
/// and only one sequence of spaceless pieces.
pub proof fn lemma_pieces_joined(t: Seq<Seq<char>>)
    requires
        t.len() > 0,
        forall|k: int| 0 <= k < t.len() ==> spaceless(#[trigger] t[k]),
    ensures
        pieces(joined(t)) == t,
    decreases t.len(),
{
    let none = Seq::<char>::empty();
    if t.len() == 1 {
        lemma_pieces_append_spaceless(none, t[0]);
        assert(none + t[0] =~= t[0]);
        assert(pieces(none) =~= seq![none]);
        assert(pieces(t[0]) =~= t);
    } else {
        let head = t.drop_last();
        lemma_pieces_joined(head);
        lemma_pieces_push(joined(head), ' ');
        lemma_pieces_append_spaceless(joined(head).push(' '), t.last());
        assert(none + t.last() =~= t.last());
        assert(pieces(joined(t)) =~= t);
    }
}

/// Writes the strings one after the other with a single space between each
/// two neighbours.
pub fn join_spaces(tokens: &Vec<String>) -> (line: String)
    ensures
        line@ == joined(texts(tokens@)),
{
    let mut line = String::new();
    let mut i: usize = 0;
    while i < tokens.len()
        invariant
            i <= tokens.len(),
            line@ == joined(texts(tokens@).take(i as int)),
        decreases tokens.len() - i,
    {
        let ghost sofar = texts(tokens@).take(i as int);
        if i > 0 {
            line.append(" ");
        }
        line.append(tokens[i].as_str());
        proof {
            reveal_strlit(" ");
            let next = texts(tokens@).take(i + 1);
            assert(next.drop_last() =~= sofar);
            assert(" "@ =~= seq![' ']);
            assert(line@ =~= joined(next));
        }
        i = i + 1;
    }
    proof {
        assert(texts(tokens@).take(tokens.len() as int) =~= texts(tokens@));
    }
    line
}

} // verus!
