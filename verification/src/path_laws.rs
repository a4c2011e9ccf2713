//! What holds of path filters and of the patterns that they are made of.

use vstd::prelude::*;

use crate::path_filter::{cut, longest_cut, matching, piece_takes, step, walked};
use crate::path_pattern::{
    parsed, parsed_segment, parsed_segments, pieces_from, with_piece, PieceView, WispView,
};
use crate::path_state::{path_parts, split_walk, PathView};

verus! {

/// Texts one after the other.
pub open spec fn strung(texts: Seq<Seq<char>>) -> Seq<char>
    decreases texts.len(),
{
    if texts.len() == 0 {
        seq![]
    } else {
        texts[0] + strung(texts.drop_first())
    }
}

/// Whether `values` is a way to deal a text out to the pieces from `from` on: each takes
/// its value, and together the values make up the text.
pub open spec fn deals_out(
    pieces: Seq<PieceView>,
    from: int,
    text: Seq<char>,
    values: Seq<Seq<char>>,
) -> bool {
    &&& values.len() == pieces.len() - from
    &&& forall|i: int| 0 <= i < values.len() ==> piece_takes(pieces[from + i], #[trigger] values[i])
    &&& strung(values) == text
}

/// A segment that matches is dealt out to the pieces of its pattern.
pub proof fn cut_deals_out_the_segment(pieces: Seq<PieceView>, from: int, text: Seq<char>)
    requires
        0 <= from <= pieces.len(),
    ensures
        cut(pieces, from, text) matches Some(values) ==> deals_out(pieces, from, text, values),
    decreases pieces.len() - from, text.len() + 2,
{
    if from == pieces.len() {
        if text.len() == 0 {
            assert(text =~= seq![]);
        }
    } else {
        lemma_longest_cut_deals_out(pieces, from, text, text.len() as int);
    }
}

proof fn lemma_longest_cut_deals_out(
    pieces: Seq<PieceView>,
    from: int,
    text: Seq<char>,
    most: int,
)
    requires
        0 <= from < pieces.len(),
    ensures
        longest_cut(pieces, from, text, most) matches Some(values) ==> deals_out(
            pieces,
            from,
            text,
            values,
        ),
    decreases pieces.len() - from, most + 1,
{
    if 0 <= most <= text.len() {
        if piece_takes(pieces[from], text.take(most)) && cut(
            pieces,
            from + 1,
            text.skip(most),
        ) is Some {
            cut_deals_out_the_segment(pieces, from + 1, text.skip(most));
            let rest = cut(pieces, from + 1, text.skip(most))->0;
            let values = seq![text.take(most)] + rest;
            assert(values.drop_first() =~= rest);
            assert(strung(values) =~= text);
            assert forall|i: int| 0 <= i < values.len() implies piece_takes(
                pieces[from + i],
                #[trigger] values[i],
            ) by {
                if i > 0 {
                    assert(values[i] == rest[i - 1]);
                    assert(pieces[from + 1 + (i - 1)] == pieces[from + i]);
                }
            }
        } else {
            lemma_longest_cut_deals_out(pieces, from, text, most - 1);
        }
    }
}

/// A segment matches wherever there is a way to deal it out to the pieces of its
/// pattern.
pub proof fn cut_is_found_where_there_is_one(
    pieces: Seq<PieceView>,
    from: int,
    text: Seq<char>,
    values: Seq<Seq<char>>,
)
    requires
        0 <= from <= pieces.len(),
        deals_out(pieces, from, text, values),
    ensures
        cut(pieces, from, text) is Some,
    decreases pieces.len() - from, text.len() + 2,
{
    if from < pieces.len() {
        lemma_longest_cut_is_found(pieces, from, text, values, text.len() as int);
    }
}

proof fn lemma_longest_cut_is_found(
    pieces: Seq<PieceView>,
    from: int,
    text: Seq<char>,
    values: Seq<Seq<char>>,
    most: int,
)
    requires
        0 <= from < pieces.len(),
        deals_out(pieces, from, text, values),
        values[0].len() <= most <= text.len(),
    ensures
        longest_cut(pieces, from, text, most) is Some,
    decreases pieces.len() - from, most + 1,
{
    let n = values[0].len();
    let rest = values.drop_first();
    assert(text.take(n as int) =~= values[0]);
    assert(text.skip(n as int) =~= strung(rest));
    if most == n {
        assert forall|i: int| 0 <= i < rest.len() implies piece_takes(
            pieces[from + 1 + i],
            #[trigger] rest[i],
        ) by {
            assert(rest[i] == values[i + 1]);
            assert(pieces[from + (i + 1)] == pieces[from + 1 + i]);
        }
        cut_is_found_where_there_is_one(pieces, from + 1, text.skip(n as int), rest);
        assert(piece_takes(pieces[from + 0], values[0]));
    } else {
        lemma_longest_cut_is_found(pieces, from, text, values, most - 1);
    }
}

/// Whether a text has no braces.
pub open spec fn no_braces(s: Seq<char>) -> bool {
    forall|i: int| 0 <= i < s.len() ==> #[trigger] s[i] != '{' && s[i] != '}'
}

proof fn lemma_walk_parts(path: Seq<char>)
    requires
        no_braces(path),
    ensures
        forall|i: int|
            0 <= i < split_walk(path).0.len() ==> no_braces(#[trigger] split_walk(path).0[i])
                && split_walk(path).0[i].len() > 0,
        no_braces(split_walk(path).1),
    decreases path.len(),
{
    if path.len() > 0 {
        assert(no_braces(path.drop_last()));
        lemma_walk_parts(path.drop_last());
        assert(path[path.len() - 1] == path.last());
    }
}

proof fn lemma_plain_pieces(text: Seq<char>, s: Seq<char>)
    requires
        no_braces(s),
    ensures
        pieces_from(seq![PieceView::Text(text)], s) == Some(seq![PieceView::Text(text + s)]),
    decreases s.len(),
{
    let before = seq![PieceView::Text(text)];
    if s.len() == 0 {
        assert(text + s =~= text);
    } else {
        let more = text + seq![s[0]];
        assert(with_piece(before, PieceView::Text(seq![s[0]])) =~= seq![PieceView::Text(more)]);
        assert(no_braces(s.skip(1)));
        lemma_plain_pieces(more, s.skip(1));
        assert(more + s.skip(1) =~= text + s);
    }
}

proof fn lemma_plain_segment(segment: Seq<char>)
    requires
        no_braces(segment),
        segment.len() > 0,
    ensures
        parsed_segment(segment) == Some(WispView::Const(segment)),
{
    let first = seq![segment[0]];
    assert(with_piece(seq![], PieceView::Text(first)) =~= seq![PieceView::Text(first)]);
    assert(no_braces(segment.skip(1)));
    lemma_plain_pieces(first, segment.skip(1));
    assert(first + segment.skip(1) =~= segment);
}

spec fn literals(parts: Seq<Seq<char>>, n: int) -> Seq<WispView> {
    Seq::new(n as nat, |i: int| WispView::Const(parts[i]))
}

proof fn lemma_plain_segments(parts: Seq<Seq<char>>, n: int)
    requires
        0 <= n <= parts.len(),
        forall|i: int|
            0 <= i < parts.len() ==> no_braces(#[trigger] parts[i]) && parts[i].len() > 0,
    ensures
        parsed_segments(parts, n) == Some(literals(parts, n)),
    decreases n,
{
    if n > 0 {
        lemma_plain_segments(parts, n - 1);
        lemma_plain_segment(parts[n - 1]);
        assert(literals(parts, n) =~= literals(parts, n - 1).push(WispView::Const(parts[n - 1])));
    } else {
        assert(literals(parts, n) =~= seq![]);
    }
}

proof fn lemma_literals_walk(parts: Seq<Seq<char>>, from: int, path: PathView)
    requires
        0 <= from <= parts.len() <= usize::MAX,
        path.parts == parts,
        path.cursor == (from as usize, 0usize),
        forall|i: int| 0 <= i < parts.len() ==> (#[trigger] parts[i]).len() > 0,
    ensures
        walked(literals(parts, parts.len() as int), from, path).0,
        walked(literals(parts, parts.len() as int), from, path).1.is_ended(),
        walked(literals(parts, parts.len() as int), from, path).1.params == path.params,
    decreases parts.len() - from,
{
    let wisps = literals(parts, parts.len() as int);
    if from < parts.len() {
        assert(parts[from].skip(0) =~= parts[from]);
        assert(path.pick() == Some(parts[from]));
        let next = step(wisps[from], path)->0;
        lemma_literals_walk(parts, from + 1, next);
    }
}

/// A path without braces, taken as a pattern, is well formed and matches itself to the
/// end, without captures.
pub proof fn plain_pattern_matches_its_path(path: Seq<char>)
    requires
        no_braces(path),
        path_parts(path).len() <= usize::MAX,
    ensures
        parsed(path) is Some,
        matching(parsed(path)->0, PathView::start(path)).0,
        matching(parsed(path)->0, PathView::start(path)).1.is_ended(),
        matching(parsed(path)->0, PathView::start(path)).1.params.entries.len() == 0,
{
    lemma_walk_parts(path);
    let parts = path_parts(path);
    assert forall|i: int| 0 <= i < parts.len() implies no_braces(#[trigger] parts[i])
        && parts[i].len() > 0 by {}
    lemma_plain_segments(parts, parts.len() as int);
    lemma_literals_walk(parts, 0, PathView::start(path));
}

} // verus!
