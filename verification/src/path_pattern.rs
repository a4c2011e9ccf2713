//! The patterns of path filters.
//!
//! A path pattern is a list of segments between slashes. A segment is made of
//!
//! - literal text, in which `{{` and `}}` stand for a brace;
//! - `{name}`, which takes at least one character of the path's segment as the
//!   parameter `name`;
//! - `{name:num}`, the same for digits. How many digits is said in parentheses behind
//!   `num`: `(3)` for three, `(3..6)` and `(3..=5)` for three to five, `(3..)` for three
//!   and more, `(..6)` and `(..=5)` for up to five.
//!
//! In place of the last segment can stand `{**name}` or `{*name}`, `{*+name}` or
//! `{*?name}`, which take the whole rest of the path: any number of segments, at
//! least one, and at most one.
//!
//! Every other pattern is refused as malformed. That goes for regular expressions,
//! too: such a test is a matter for a filter of its own.

use vstd::prelude::*;

use crate::path_state::{path_parts, split_path};
use crate::pattern::{count_rest_marks, find_name_end, name_end, rest_marks};
use crate::text::{chars_of, text_of, texts};

verus! {

/// How much of the path a rest parameter takes.
#[derive(Clone, Copy, Debug, PartialEq, Eq)]
pub enum RestKind {
    Any,
    OneOrMore,
    AtMostOne,
}

/// A piece of a segment of a pattern.
#[derive(Debug, PartialEq, Eq)]
pub enum Piece {
    /// Exactly this text.
    Text(String),
    /// Any text, captured under a name.
    Any(String),
    /// Digits, captured under a name: at least and at most so many.
    Num(String, usize, Option<usize>),
}

/// The contents of a [`Piece`].
pub enum PieceView {
    Text(Seq<char>),
    Any(Seq<char>),
    Num(Seq<char>, nat, Option<nat>),
}

/// A bound as a number.
pub open spec fn bound_of(max: Option<usize>) -> Option<nat> {
    match max {
        Some(n) => Some(n as nat),
        None => None,
    }
}

impl View for Piece {
    type V = PieceView;

    open spec fn view(&self) -> PieceView {
        match *self {
            Piece::Text(text) => PieceView::Text(text@),
            Piece::Any(name) => PieceView::Any(name@),
            Piece::Num(name, min, max) => PieceView::Num(name@, min as nat, bound_of(max)),
        }
    }
}

/// What a segment of a pattern asks for.
#[derive(Debug, PartialEq, Eq)]
pub enum Wisp {
    /// Exactly this segment.
    Const(String),
    /// A segment made of these pieces.
    Mixed(Vec<Piece>),
    /// The rest of the path, captured under a name.
    Rest(RestKind, String),
}

/// The contents of a [`Wisp`].
pub enum WispView {
    Const(Seq<char>),
    Mixed(Seq<PieceView>),
    Rest(RestKind, Seq<char>),
}

/// The contents of a list of pieces.
pub open spec fn piece_views(pieces: Seq<Piece>) -> Seq<PieceView> {
    pieces.map_values(|p: Piece| p@)
}

/// The contents of a list of wisps.
pub open spec fn wisp_views(wisps: Seq<Wisp>) -> Seq<WispView> {
    wisps.map_values(|w: Wisp| w@)
}

impl View for Wisp {
    type V = WispView;

    open spec fn view(&self) -> WispView {
        match *self {
            Wisp::Const(text) => WispView::Const(text@),
            Wisp::Mixed(pieces) => WispView::Mixed(piece_views(pieces@)),
            Wisp::Rest(kind, name) => WispView::Rest(kind, name@),
        }
    }
}

/// Whether a character is a decimal digit.
pub open spec fn is_digit(c: char) -> bool {
    '0' <= c && c <= '9'
}

/// The number that a text of digits stands for.
pub open spec fn decimal(s: Seq<char>) -> nat
    decreases s.len(),
{
    if s.len() == 0 {
        0
    } else {
        decimal(s.drop_last()) * 10 + (s.last() as nat - '0' as nat) as nat
    }
}

/// The number that a text stands for: digits, at least one, and not too large for
/// the machine.
pub open spec fn number(s: Seq<char>) -> Option<nat> {
    if s.len() > 0 && (forall|i: int| 0 <= i < s.len() ==> is_digit(#[trigger] s[i])) && decimal(s)
        <= usize::MAX {
        Some(decimal(s))
    } else {
        None
    }
}

/// Where the first dot stands, or the end of the text.
pub open spec fn first_dot(s: Seq<char>) -> int
    decreases s.len(),
{
    if s.len() == 0 || s[0] == '.' {
        0
    } else {
        1 + first_dot(s.skip(1))
    }
}

/// The lower bound that stands before the dots of a range.
pub open spec fn lower_bound(s: Seq<char>) -> Option<nat> {
    if s.len() == 0 {
        Some(1)
    } else {
        number(s)
    }
}

/// The least and the greatest width that a range stands for.
pub open spec fn widths(range: Seq<char>) -> Option<(nat, Option<nat>)> {
    let dot = first_dot(range);
    let before = range.take(dot);
    let after = range.skip(dot + 2);
    if dot >= range.len() {
        match number(range) {
            Some(n) => Some((n, Some(n))),
            None => None,
        }
    } else if dot + 1 >= range.len() || range[dot + 1] != '.' {
        None
    } else if after.len() == 0 {
        match number(before) {
            Some(min) => Some((min, None)),
            None => None,
        }
    } else if after[0] == '=' {
        match (lower_bound(before), number(after.skip(1))) {
            (Some(min), Some(max)) if min <= max => Some((min, Some(max))),
            _ => None,
        }
    } else {
        match (lower_bound(before), number(after)) {
            (Some(min), Some(end)) if min < end => Some((min, Some((end - 1) as nat))),
            _ => None,
        }
    }
}

/// The widths that the constraint of a parameter stands for.
pub open spec fn num_widths(constraint: Seq<char>) -> Option<(nat, Option<nat>)> {
    if constraint.len() < 3 || constraint.take(3) != seq!['n', 'u', 'm'] {
        None
    } else if constraint.len() == 3 {
        Some((1, None))
    } else if constraint[3] == '(' && constraint.len() > 4 && constraint.last() == ')' {
        widths(constraint.subrange(4, constraint.len() - 1))
    } else {
        None
    }
}

/// The parameter that the text between two braces describes.
pub open spec fn parameter(inner: Seq<char>) -> Option<PieceView> {
    let end = name_end(inner);
    if end == 0 || rest_marks(inner) > 0 {
        None
    } else if end == inner.len() {
        Some(PieceView::Any(inner))
    } else if inner[end] == ':' {
        match num_widths(inner.skip(end + 1)) {
            Some((min, max)) => Some(PieceView::Num(inner.take(end), min, max)),
            None => None,
        }
    } else {
        None
    }
}

/// Where the first brace stands, or the end of the text.
pub open spec fn first_brace(s: Seq<char>) -> int
    decreases s.len(),
{
    if s.len() == 0 || s[0] == '{' || s[0] == '}' {
        0
    } else {
        1 + first_brace(s.skip(1))
    }
}

/// The first brace is inside the text, and is a brace.
pub proof fn lemma_first_brace_in_range(s: Seq<char>)
    ensures
        0 <= first_brace(s) <= s.len(),
        first_brace(s) < s.len() ==> s[first_brace(s)] == '{' || s[first_brace(s)] == '}',
    decreases s.len(),
{
    if s.len() > 0 && s[0] != '{' && s[0] != '}' {
        lemma_first_brace_in_range(s.skip(1));
    }
}

/// The pieces with one more piece behind them. Texts that stand side by side are one
/// piece.
pub open spec fn with_piece(before: Seq<PieceView>, piece: PieceView) -> Seq<PieceView> {
    if before.len() > 0 && before.last() is Text && piece is Text {
        before.drop_last().push(PieceView::Text(before.last()->Text_0 + piece->Text_0))
    } else {
        before.push(piece)
    }
}

/// The pieces of a segment of which the pieces `before` are read and `s` is left, or
/// `None` where it is malformed.
pub open spec fn pieces_from(before: Seq<PieceView>, s: Seq<char>) -> Option<Seq<PieceView>>
    decreases s.len(),
{
    if s.len() == 0 {
        Some(before)
    } else if s[0] != '{' && s[0] != '}' {
        pieces_from(with_piece(before, PieceView::Text(seq![s[0]])), s.skip(1))
    } else if s.len() > 1 && s[1] == s[0] {
        pieces_from(with_piece(before, PieceView::Text(seq![s[0]])), s.skip(2))
    } else if s[0] == '}' {
        None
    } else {
        let end = 1 + first_brace(s.skip(1));
        proof {
            lemma_first_brace_in_range(s.skip(1));
        }
        if end >= s.len() || s[end] == '{' {
            None
        } else {
            match parameter(s.subrange(1, end)) {
                Some(piece) => pieces_from(with_piece(before, piece), s.skip(end + 1)),
                None => None,
            }
        }
    }
}

/// The rest parameter that a segment is.
pub open spec fn rest_parameter(segment: Seq<char>) -> Option<WispView> {
    let inner = segment.subrange(1, segment.len() - 1);
    let marks = rest_marks(inner);
    if segment.len() < 2 || segment[0] != '{' || segment.last() != '}' {
        None
    } else if marks == 0 || first_brace(inner) < inner.len() || name_end(inner) < inner.len() {
        None
    } else {
        let kind = if marks == 2 && inner[1] == '+' {
            RestKind::OneOrMore
        } else if marks == 2 && inner[1] == '?' {
            RestKind::AtMostOne
        } else {
            RestKind::Any
        };
        Some(WispView::Rest(kind, inner.skip(marks)))
    }
}

/// What a segment of a pattern means.
pub open spec fn parsed_segment(segment: Seq<char>) -> Option<WispView> {
    match rest_parameter(segment) {
        Some(rest) => Some(rest),
        None => match pieces_from(seq![], segment) {
            Some(pieces) => if pieces.len() == 1 && pieces[0] is Text {
                Some(WispView::Const(pieces[0]->Text_0))
            } else {
                Some(WispView::Mixed(pieces))
            },
            None => None,
        },
    }
}

/// What the first `n` segments of a pattern mean. Nothing stands behind a rest
/// parameter.
pub open spec fn parsed_segments(segments: Seq<Seq<char>>, n: int) -> Option<Seq<WispView>>
    decreases n,
{
    if n <= 0 {
        Some(seq![])
    } else {
        match (parsed_segments(segments, n - 1), parsed_segment(segments[n - 1])) {
            (Some(before), Some(wisp)) => if before.len() > 0 && before.last() is Rest {
                None
            } else {
                Some(before.push(wisp))
            },
            _ => None,
        }
    }
}

/// What a pattern means, or `None` where it is malformed.
pub open spec fn parsed(pattern: Seq<char>) -> Option<Seq<WispView>> {
    let segments = path_parts(pattern);
    parsed_segments(segments, segments.len() as int)
}

fn digit(c: char) -> (d: Option<usize>)
    ensures
        match d {
            Some(n) => is_digit(c) && n == c as nat - '0' as nat,
            None => !is_digit(c),
        },
{
    match c {
        '0' => Some(0),
        '1' => Some(1),
        '2' => Some(2),
        '3' => Some(3),
        '4' => Some(4),
        '5' => Some(5),
        '6' => Some(6),
        '7' => Some(7),
        '8' => Some(8),
        '9' => Some(9),
        _ => None,
    }
}

proof fn lemma_decimal_grows(s: Seq<char>, n: int)
    requires
        0 <= n <= s.len(),
    ensures
        decimal(s.take(n)) <= decimal(s),
    decreases s.len(),
{
    if n == s.len() {
        assert(s.take(n) =~= s);
    } else {
        lemma_decimal_grows(s.drop_last(), n);
        assert(s.drop_last().take(n) =~= s.take(n));
    }
}

/// Reads the number between `from` and `to`.
fn read_number(chars: &Vec<char>, from: usize, to: usize) -> (n: Option<usize>)
    requires
        from <= to <= chars.len(),
    ensures
        bound_of(n) == number(chars@.subrange(from as int, to as int)),
{
    let ghost s = chars@.subrange(from as int, to as int);
    if from == to {
        return None;
    }
    let mut n: usize = 0;
    let mut i: usize = from;
    while i < to
        invariant
            from <= i <= to <= chars.len(),
            from < to,
            s == chars@.subrange(from as int, to as int),
            n == decimal(s.take(i - from)),
            forall|j: int| 0 <= j < i - from ==> is_digit(#[trigger] s[j]),
        decreases to - i,
    {
        let c = chars[i];
        proof {
            assert(s[i - from] == c);
            assert(s.take(i - from + 1).drop_last() =~= s.take(i - from));
            assert(s.take(i - from + 1).last() == c);
        }
        match digit(c) {
            Some(d) => {
                if n > (usize::MAX - d) / 10 {
                    proof {
                        lemma_decimal_grows(s, i - from + 1);
                    }
                    return None;
                }
                n = n * 10 + d;
            },
            None => return None,
        }
        i = i + 1;
    }
    assert(s.take(i - from) =~= s);
    Some(n)
}

fn find_dot(chars: &Vec<char>, from: usize, to: usize) -> (dot: usize)
    requires
        from <= to <= chars.len(),
    ensures
        from <= dot <= to,
        dot - from == first_dot(chars@.subrange(from as int, to as int)),
{
    let mut i: usize = from;
    while i < to
        invariant
            from <= i <= to <= chars.len(),
            first_dot(chars@.subrange(from as int, to as int)) == i - from + first_dot(
                chars@.subrange(i as int, to as int),
            ),
        decreases to - i,
    {
        let ghost rest = chars@.subrange(i as int, to as int);
        if chars[i] == '.' {
            return i;
        }
        proof {
            assert(rest.skip(1) =~= chars@.subrange(i + 1, to as int));
        }
        i = i + 1;
    }
    i
}

fn find_brace(chars: &Vec<char>, from: usize, to: usize) -> (brace: usize)
    requires
        from <= to <= chars.len(),
    ensures
        from <= brace <= to,
        brace - from == first_brace(chars@.subrange(from as int, to as int)),
{
    let mut i: usize = from;
    while i < to
        invariant
            from <= i <= to <= chars.len(),
            first_brace(chars@.subrange(from as int, to as int)) == i - from + first_brace(
                chars@.subrange(i as int, to as int),
            ),
        decreases to - i,
    {
        let ghost rest = chars@.subrange(i as int, to as int);
        if chars[i] == '{' || chars[i] == '}' {
            return i;
        }
        proof {
            assert(rest.skip(1) =~= chars@.subrange(i + 1, to as int));
        }
        i = i + 1;
    }
    i
}

/// A pair of bounds as numbers.
pub open spec fn bounds_of(bounds: Option<(usize, Option<usize>)>) -> Option<(nat, Option<nat>)> {
    match bounds {
        Some((min, max)) => Some((min as nat, bound_of(max))),
        None => None,
    }
}

/// Reads the range between `from` and `to`.
fn read_widths(chars: &Vec<char>, from: usize, to: usize) -> (bounds: Option<
    (usize, Option<usize>),
>)
    requires
        from <= to <= chars.len(),
    ensures
        bounds_of(bounds) == widths(chars@.subrange(from as int, to as int)),
{
    let ghost range = chars@.subrange(from as int, to as int);
    let dot = find_dot(chars, from, to);
    proof {
        assert(range.take(dot - from) =~= chars@.subrange(from as int, dot as int));
    }
    if dot == to {
        return match read_number(chars, from, to) {
            Some(n) => Some((n, Some(n))),
            None => None,
        };
    }
    if dot + 1 == to || chars[dot + 1] != '.' {
        return None;
    }
    proof {
        assert(range.skip(dot - from + 2) =~= chars@.subrange(dot + 2, to as int));
    }
    if dot + 2 == to {
        return match read_number(chars, from, dot) {
            Some(min) => Some((min, None)),
            None => None,
        };
    }
    let min = if dot == from {
        1
    } else {
        match read_number(chars, from, dot) {
            Some(n) => n,
            None => return None,
        }
    };
    if chars[dot + 2] == '=' {
        proof {
            assert(range.skip(dot - from + 2).skip(1) =~= chars@.subrange(dot + 3, to as int));
        }
        match read_number(chars, dot + 3, to) {
            Some(max) => if min <= max {
                Some((min, Some(max)))
            } else {
                None
            },
            None => None,
        }
    } else {
        match read_number(chars, dot + 2, to) {
            Some(end) => if min < end {
                Some((min, Some(end - 1)))
            } else {
                None
            },
            None => None,
        }
    }
}

/// Reads the constraint between `from` and `to`.
fn read_constraint(chars: &Vec<char>, from: usize, to: usize) -> (bounds: Option<
    (usize, Option<usize>),
>)
    requires
        from <= to <= chars.len(),
    ensures
        bounds_of(bounds) == num_widths(chars@.subrange(from as int, to as int)),
{
    let ghost constraint = chars@.subrange(from as int, to as int);
    if to - from < 3 {
        return None;
    }
    if chars[from] != 'n' || chars[from + 1] != 'u' || chars[from + 2] != 'm' {
        proof {
            let head = constraint.take(3);
            assert(head[0] == chars@[from as int]);
            assert(head[1] == chars@[from + 1]);
            assert(head[2] == chars@[from + 2]);
            let num = seq!['n', 'u', 'm'];
            assert(num[0] == 'n' && num[1] == 'u' && num[2] == 'm');
        }
        return None;
    }
    assert(constraint.take(3) =~= seq!['n', 'u', 'm']);
    if to - from == 3 {
        return Some((1, None));
    }
    if chars[from + 3] == '(' && to - from > 4 && chars[to - 1] == ')' {
        proof {
            assert(constraint.subrange(4, constraint.len() - 1) =~= chars@.subrange(
                from + 4,
                to - 1,
            ));
        }
        read_widths(chars, from + 4, to - 1)
    } else {
        None
    }
}

/// The contents of an optional piece.
pub open spec fn piece_in(piece: Option<Piece>) -> Option<PieceView> {
    match piece {
        Some(p) => Some(p@),
        None => None,
    }
}

/// Reads the parameter between `from` and `to`.
fn read_parameter(chars: &Vec<char>, from: usize, to: usize) -> (piece: Option<Piece>)
    requires
        from <= to <= chars.len(),
    ensures
        piece_in(piece) == parameter(chars@.subrange(from as int, to as int)),
{
    let ghost inner = chars@.subrange(from as int, to as int);
    let end = find_name_end(chars, from, to);
    let marks = count_rest_marks(chars, from, to);
    if end == from || marks > 0 {
        return None;
    }
    if end == to {
        return Some(Piece::Any(text_of(chars, from, to)));
    }
    if chars[end] != ':' {
        return None;
    }
    proof {
        assert(inner.take(end - from) =~= chars@.subrange(from as int, end as int));
        assert(inner.skip(end - from + 1) =~= chars@.subrange(end + 1, to as int));
    }
    match read_constraint(chars, end + 1, to) {
        Some((min, max)) => Some(Piece::Num(text_of(chars, from, end), min, max)),
        None => None,
    }
}

/// Adds a character of literal text behind the pieces.
fn push_char(pieces: &mut Vec<Piece>, c: char)
    ensures
        piece_views(final(pieces)@) == with_piece(
            piece_views(old(pieces)@),
            PieceView::Text(seq![c]),
        ),
{
    let ghost before = piece_views(pieces@);
    match pieces.pop() {
        Some(Piece::Text(mut text)) => {
            let ghost old_text = text@;
            text.push(c);
            assert(text@ =~= old_text + seq![c]);
            pieces.push(Piece::Text(text));
            assert(piece_views(pieces@) =~= with_piece(before, PieceView::Text(seq![c])));
        },
        Some(last) => {
            let mut text = String::new();
            text.push(c);
            assert(text@ =~= seq![c]);
            pieces.push(last);
            pieces.push(Piece::Text(text));
            assert(piece_views(pieces@) =~= with_piece(before, PieceView::Text(seq![c])));
        },
        None => {
            let mut text = String::new();
            text.push(c);
            assert(text@ =~= seq![c]);
            pieces.push(Piece::Text(text));
            assert(piece_views(pieces@) =~= with_piece(before, PieceView::Text(seq![c])));
        },
    }
}

/// Reads the pieces of a segment.
fn read_pieces(chars: &Vec<char>) -> (pieces: Option<Vec<Piece>>)
    ensures
        match pieces {
            Some(ps) => pieces_from(seq![], chars@) == Some(piece_views(ps@)),
            None => pieces_from(seq![], chars@) is None,
        },
{
    let mut pieces: Vec<Piece> = Vec::new();
    let mut i: usize = 0;
    let len = chars.len();
    proof {
        assert(chars@.skip(0) =~= chars@);
        assert(piece_views(pieces@) =~= seq![]);
    }
    while i < len
        invariant
            i <= len,
            len == chars.len(),
            pieces_from(seq![], chars@) == pieces_from(
                piece_views(pieces@),
                chars@.skip(i as int),
            ),
        decreases len - i,
    {
        let c = chars[i];
        let ghost here = chars@.skip(i as int);
        proof {
            assert(here.skip(1) =~= chars@.skip(i + 1));
            if here.len() > 1 {
                assert(here.skip(2) =~= chars@.skip(i + 2));
            }
        }
        if c != '{' && c != '}' {
            push_char(&mut pieces, c);
            i = i + 1;
        } else if i + 1 < len && chars[i + 1] == c {
            push_char(&mut pieces, c);
            i = i + 2;
        } else if c == '}' {
            return None;
        } else {
            let end = find_brace(chars, i + 1, len);
            proof {
                assert(here.skip(1) =~= chars@.subrange(i + 1, len as int));
            }
            if end == len || chars[end] == '{' {
                return None;
            }
            proof {
                assert(here.subrange(1, end - i) =~= chars@.subrange(i + 1, end as int));
                assert(here.skip(end - i + 1) =~= chars@.skip(end + 1));
            }
            match read_parameter(chars, i + 1, end) {
                Some(piece) => {
                    let ghost before = piece_views(pieces@);
                    let ghost view = piece@;
                    pieces.push(piece);
                    assert(piece_views(pieces@) =~= before.push(view));
                },
                None => return None,
            }
            i = end + 1;
        }
    }
    assert(chars@.skip(i as int) =~= seq![]);
    Some(pieces)
}

/// Reads the rest parameter that a segment is.
fn read_rest(chars: &Vec<char>) -> (wisp: Option<Wisp>)
    ensures
        match wisp {
            Some(w) => rest_parameter(chars@) == Some(w@),
            None => rest_parameter(chars@) is None,
        },
{
    let len = chars.len();
    if len < 2 || chars[0] != '{' || chars[len - 1] != '}' {
        return None;
    }
    let to = len - 1;
    let ghost inner = chars@.subrange(1, to as int);
    let marks = count_rest_marks(chars, 1, to);
    if marks == 0 || find_brace(chars, 1, to) < to || find_name_end(chars, 1, to) < to {
        return None;
    }
    let kind = if marks == 2 && chars[2] == '+' {
        RestKind::OneOrMore
    } else if marks == 2 && chars[2] == '?' {
        RestKind::AtMostOne
    } else {
        RestKind::Any
    };
    assert(inner.skip(marks as int) =~= chars@.subrange(1 + marks, to as int));
    Some(Wisp::Rest(kind, text_of(chars, 1 + marks, to)))
}

/// Reads a segment of a pattern.
fn read_segment(segment: &str) -> (wisp: Option<Wisp>)
    ensures
        match wisp {
            Some(w) => parsed_segment(segment@) == Some(w@),
            None => parsed_segment(segment@) is None,
        },
{
    let chars = chars_of(segment);
    if let Some(rest) = read_rest(&chars) {
        return Some(rest);
    }
    let mut pieces = match read_pieces(&chars) {
        Some(pieces) => pieces,
        None => return None,
    };
    let ghost views = piece_views(pieces@);
    if pieces.len() == 1 {
        assert(views[0] == pieces@[0]@);
        match pieces.pop() {
            Some(Piece::Text(text)) => return Some(Wisp::Const(text)),
            Some(piece) => pieces.push(piece),
            None => {},
        }
    }
    assert(piece_views(pieces@) =~= views);
    Some(Wisp::Mixed(pieces))
}

/// Reads a pattern.
pub fn read_pattern(pattern: &str) -> (wisps: Option<Vec<Wisp>>)
    ensures
        match wisps {
            Some(ws) => parsed(pattern@) == Some(wisp_views(ws@)),
            None => parsed(pattern@) is None,
        },
{
    let segments = split_path(pattern);
    let ghost parts = texts(segments@);
    let mut wisps: Vec<Wisp> = Vec::new();
    let mut i: usize = 0;
    proof {
        assert(wisp_views(wisps@) =~= seq![]);
    }
    while i < segments.len()
        invariant
            i <= segments.len(),
            parts == texts(segments@),
            parts == path_parts(pattern@),
            parsed_segments(parts, i as int) == Some(wisp_views(wisps@)),
        decreases segments.len() - i,
    {
        let behind_rest = wisps.len() > 0 && match &wisps[wisps.len() - 1] {
            Wisp::Rest(_, _) => true,
            _ => false,
        };
        let ghost before = wisp_views(wisps@);
        if behind_rest {
            proof {
                lemma_malformed_prefix(parts, i + 1, segments@.len() as int);
            }
            return None;
        }
        match read_segment(segments[i].as_str()) {
            Some(wisp) => {
                let ghost view = wisp@;
                wisps.push(wisp);
                assert(wisp_views(wisps@) =~= before.push(view));
            },
            None => {
                proof {
                    lemma_malformed_prefix(parts, i + 1, segments@.len() as int);
                }
                return None;
            },
        }
        i = i + 1;
    }
    Some(wisps)
}

proof fn lemma_malformed_prefix(segments: Seq<Seq<char>>, n: int, m: int)
    requires
        0 <= n <= m,
        parsed_segments(segments, n) is None,
    ensures
        parsed_segments(segments, m) is None,
    decreases m - n,
{
    if n < m {
        lemma_malformed_prefix(segments, n, m - 1);
    }
}

} // verus!
