use vstd::prelude::*;

verus! {

/// The ASCII letters: the only characters that a token is made of.
pub open spec fn is_letter(c: char) -> bool {
    ('a' <= c && c <= 'z') || ('A' <= c && c <= 'Z')
}

/// What is left of `text` when it is cut at every maximal run of characters
/// that are not letters: the stretches of letters between those runs, in
/// order, with an empty piece where the text begins or ends with such a run.
/// The empty text is one empty piece.
pub open spec fn pieces(text: Seq<char>) -> Seq<Seq<char>>
    decreases text.len(),
{
    if text.len() == 0 {
        seq![Seq::<char>::empty()]
    } else {
        let before = pieces(text.drop_last());
        if is_letter(text.last()) {
            before.drop_last().push(before.last().push(text.last()))
        } else if text.len() >= 2 && !is_letter(text[text.len() - 2]) {
            before
        } else {
            before.push(Seq::<char>::empty())
        }
    }
}

/// A piece counts as a token when it holds at least one character.
pub open spec fn is_token(piece: Seq<char>) -> bool {
    piece.len() > 0
}

/// The pieces that are tokens, in the order in which they stand in `found`.
pub open spec fn keep_tokens(found: Seq<Seq<char>>) -> Seq<Seq<char>> {
    found.filter(|piece: Seq<char>| is_token(piece))
}

/// The tokens of `text`: its maximal runs of letters, in order.
pub open spec fn tokens_of(text: Seq<char>) -> Seq<Seq<char>> {
    keep_tokens(pieces(text))
}

/// Keeping the tokens of a sequence with one more piece at its end.
pub proof fn lemma_keep_tokens_push(found: Seq<Seq<char>>, piece: Seq<char>)
    ensures
        keep_tokens(found.push(piece)) == if is_token(piece) {
            keep_tokens(found).push(piece)
        } else {
            keep_tokens(found)
        },
{
    found.lemma_filter_push(piece, |piece: Seq<char>| is_token(piece));
}

/// There is always at least one piece.
pub proof fn lemma_pieces_len(text: Seq<char>)
    ensures
        pieces(text).len() >= 1,
    decreases text.len(),
{
    if text.len() > 0 {
        lemma_pieces_len(text.drop_last());
    }
}

/// A piece holds letters only.
pub proof fn lemma_pieces_are_letters(text: Seq<char>)
    ensures
        forall|k: int, j: int|
            0 <= k < pieces(text).len() && 0 <= j < pieces(text)[k].len() ==> is_letter(
                #[trigger] pieces(text)[k][j],
            ),
    decreases text.len(),
{
    if text.len() > 0 {
        lemma_pieces_len(text.drop_last());
        lemma_pieces_are_letters(text.drop_last());
    }
}

/// A token is a run of one or more letters.
pub proof fn lemma_tokens_are_words(text: Seq<char>)
    ensures
        forall|k: int|
            0 <= k < tokens_of(text).len() ==> (#[trigger] tokens_of(text)[k]).len() > 0,
        forall|k: int, j: int|
            0 <= k < tokens_of(text).len() && 0 <= j < tokens_of(text)[k].len() ==> is_letter(
                #[trigger] tokens_of(text)[k][j],
            ),
{
    let found = pieces(text);
    let keep = |piece: Seq<char>| is_token(piece);
    lemma_pieces_are_letters(text);
    assert forall|k: int| 0 <= k < tokens_of(text).len() implies (#[trigger] tokens_of(
        text,
    )[k]).len() > 0 && forall|j: int|
        0 <= j < tokens_of(text)[k].len() ==> is_letter(#[trigger] tokens_of(text)[k][j]) by {
        found.lemma_filter_pred(keep, k);
        found.lemma_filter_contains_rev(keep, found.filter(keep)[k]);
    }
}

/// A text of letters only is one piece, and, unless it is empty, one token.
pub proof fn lemma_tokens_of_word(word: Seq<char>)
    requires
        forall|at: int| 0 <= at < word.len() ==> is_letter(#[trigger] word[at]),
    ensures
        pieces(word) == seq![word],
        tokens_of(word) == if word.len() > 0 {
            seq![word]
        } else {
            Seq::<Seq<char>>::empty()
        },
    decreases word.len(),
{
    let none = Seq::<Seq<char>>::empty();
    if word.len() > 0 {
        let before = word.drop_last();
        lemma_tokens_of_word(before);
        assert(seq![before].drop_last() =~= none);
        assert(before.push(word.last()) =~= word);
        assert(pieces(word) == none.push(word));
    } else {
        assert(word =~= Seq::<char>::empty());
    }
    assert(seq![word] =~= none.push(word));
    assert(keep_tokens(none) == none) by {
        reveal(Seq::filter);
    }
    lemma_keep_tokens_push(none, word);
}

/// Text that ends in a character that is no letter ends in an empty piece.
pub proof fn lemma_pieces_after_separator(text: Seq<char>)
    requires
        text.len() > 0,
        !is_letter(text.last()),
    ensures
        pieces(text).last().len() == 0,
    decreases text.len(),
{
    lemma_pieces_len(text.drop_last());
    if text.len() >= 2 && !is_letter(text[text.len() - 2]) {
        lemma_pieces_after_separator(text.drop_last());
    }
}

/// How the pieces of a text continue behind a character that is no letter:
/// the last piece grows as it does in `tail` alone, and the pieces before it
/// hold the tokens of `head` followed by those of `tail`.
proof fn lemma_pieces_continue(head: Seq<char>, tail: Seq<char>)
    requires
        head.len() > 0,
        !is_letter(head.last()),
    ensures
        pieces(head + tail).last() == pieces(tail).last(),
        keep_tokens(pieces(head + tail).drop_last()) == tokens_of(head) + keep_tokens(
            pieces(tail).drop_last(),
        ),
    decreases tail.len(),
{
    let none = Seq::<Seq<char>>::empty();
    assert(keep_tokens(none) == none) by {
        reveal(Seq::filter);
    }
    lemma_pieces_len(head);
    if tail.len() == 0 {
        assert(head + tail =~= head);
        lemma_pieces_after_separator(head);
        let found = pieces(head);
        assert(found =~= found.drop_last().push(found.last()));
        lemma_keep_tokens_push(found.drop_last(), found.last());
        assert(pieces(tail).drop_last() =~= none);
        assert(tokens_of(head) + none =~= tokens_of(head));
    } else {
        let shorter = tail.drop_last();
        let last = tail.last();
        assert((head + tail).drop_last() =~= head + shorter);
        assert((head + tail).last() == last);
        lemma_pieces_continue(head, shorter);
        lemma_pieces_len(head + shorter);
        lemma_pieces_len(shorter);
        let joined = pieces(head + shorter);
        let alone = pieces(shorter);
        if is_letter(last) {
            assert(pieces(head + tail).drop_last() =~= joined.drop_last());
            assert(pieces(tail).drop_last() =~= alone.drop_last());
        } else if shorter.len() == 0 {
            assert(pieces(head + tail) == joined);
            assert(pieces(tail) =~= seq![Seq::<char>::empty(), Seq::<char>::empty()]);
            assert(pieces(tail).drop_last() =~= none.push(Seq::<char>::empty()));
            lemma_keep_tokens_push(none, Seq::<char>::empty());
        } else if is_letter(shorter.last()) {
            assert((head + tail)[(head + tail).len() - 2] == shorter.last());
            assert(tail[tail.len() - 2] == shorter.last());
            assert(pieces(head + tail).drop_last() =~= joined);
            assert(pieces(tail).drop_last() =~= alone);
            assert(joined =~= joined.drop_last().push(joined.last()));
            assert(alone =~= alone.drop_last().push(alone.last()));
            lemma_keep_tokens_push(joined.drop_last(), joined.last());
            lemma_keep_tokens_push(alone.drop_last(), alone.last());
            assert((tokens_of(head) + keep_tokens(alone.drop_last())).push(alone.last())
                =~= tokens_of(head) + keep_tokens(alone.drop_last()).push(alone.last()));
        } else {
            assert((head + tail)[(head + tail).len() - 2] == shorter.last());
            assert(tail[tail.len() - 2] == shorter.last());
        }
    }
}

/// No token reaches across a character that is no letter: the tokens of a
/// text in which such a character stands are the tokens of what stands before
/// it, followed by the tokens of what stands behind it. A line break is such
/// a character, so the tokens of a text are those of its lines, one line
/// after the other.
pub proof fn lemma_tokens_split_at_separator(head: Seq<char>, separator: char, tail: Seq<char>)
    requires
        !is_letter(separator),
    ensures
        tokens_of(head.push(separator) + tail) == tokens_of(head) + tokens_of(tail),
{
    let cut = head.push(separator);
    assert(cut.drop_last() =~= head);
    lemma_pieces_len(head);
    assert(tokens_of(cut) == tokens_of(head)) by {
        if !(cut.len() >= 2 && !is_letter(cut[cut.len() - 2])) {
            lemma_keep_tokens_push(pieces(head), Seq::<char>::empty());
        }
    }
    lemma_pieces_continue(cut, tail);
    lemma_pieces_len(cut + tail);
    lemma_pieces_len(tail);
    let joined = pieces(cut + tail);
    let alone = pieces(tail);
    assert(joined =~= joined.drop_last().push(joined.last()));
    assert(alone =~= alone.drop_last().push(alone.last()));
    lemma_keep_tokens_push(joined.drop_last(), joined.last());
    lemma_keep_tokens_push(alone.drop_last(), alone.last());
    assert((tokens_of(head) + keep_tokens(alone.drop_last())).push(alone.last()) =~= tokens_of(
        head,
    ) + keep_tokens(alone.drop_last()).push(alone.last()));
}

} // verus!
