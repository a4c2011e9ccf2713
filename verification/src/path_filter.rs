//! Filters on the request path.

use vstd::prelude::*;

use crate::filters::{
    said, Filter, FilterBox, FilterExt, FilterInfo, InfoView, Pause, Progress, Side, Verdict, World,
};
use crate::http::Request;
use crate::path_pattern::{
    is_digit, parsed, piece_views, read_pattern, wisp_views, Piece, PieceView, RestKind, Wisp,
    WispView,
};
use crate::path_state::{ParamsView, PathParams, PathState, PathView};
use crate::text::{chars_of, text_of, texts};

verus! {

/// The place of the part that the next segment is in.
pub open spec fn next_row(path: PathView) -> int {
    let (row, col) = path.cursor;
    if col < path.parts[row as int].len() {
        row as int
    } else {
        row + 1
    }
}

/// The segments that come next, up to the end of the path.
pub open spec fn remaining(path: PathView) -> Seq<Seq<char>> {
    match path.pick() {
        Some(segment) => seq![segment] + path.parts.skip(next_row(path) + 1),
        None => seq![],
    }
}

/// The first `n` segments with slashes between them.
pub open spec fn joined(segments: Seq<Seq<char>>, n: int) -> Seq<char>
    decreases n,
{
    if n <= 0 {
        seq![]
    } else if n == 1 {
        segments[0]
    } else {
        joined(segments, n - 1).push('/') + segments[n - 1]
    }
}

/// What a rest parameter captures: the segments that come next, as the path has
/// them, with the slash at the end of the path.
pub open spec fn rest_text(path: PathView) -> Seq<char> {
    let segments = remaining(path);
    let text = joined(segments, segments.len() as int);
    if path.end_slash && segments.len() > 0 {
        text.push('/')
    } else {
        text
    }
}

/// Whether a rest parameter takes `n` segments.
pub open spec fn takes(kind: RestKind, n: nat) -> bool {
    match kind {
        RestKind::Any => true,
        RestKind::OneOrMore => n >= 1,
        RestKind::AtMostOne => n <= 1,
    }
}

/// Whether a piece of a pattern takes exactly the given text.
pub open spec fn piece_takes(piece: PieceView, text: Seq<char>) -> bool {
    match piece {
        PieceView::Text(literal) => text == literal,
        PieceView::Any(_) => text.len() > 0,
        PieceView::Num(_, min, max) => {
            &&& text.len() > 0
            &&& text.len() >= min
            &&& max matches Some(most) ==> text.len() <= most
            &&& forall|i: int| 0 <= i < text.len() ==> is_digit(#[trigger] text[i])
        },
    }
}

/// What each of the pieces from `from` on takes of a text, so that together they take
/// all of it: the first piece as much as it can so that the others can take the rest,
/// and so on. `None` where they cannot.
pub open spec fn cut(pieces: Seq<PieceView>, from: int, text: Seq<char>) -> Option<Seq<Seq<char>>>
    decreases pieces.len() - from, text.len() + 2,
{
    if from >= pieces.len() {
        if text.len() == 0 {
            Some(seq![])
        } else {
            None
        }
    } else {
        longest_cut(pieces, from, text, text.len() as int)
    }
}

/// The same, where the piece at `from` takes at most `most` characters.
pub open spec fn longest_cut(
    pieces: Seq<PieceView>,
    from: int,
    text: Seq<char>,
    most: int,
) -> Option<Seq<Seq<char>>>
    decreases pieces.len() - from, most + 1,
{
    if from >= pieces.len() || most < 0 || most > text.len() {
        None
    } else if piece_takes(pieces[from], text.take(most)) && cut(
        pieces,
        from + 1,
        text.skip(most),
    ) is Some {
        Some(seq![text.take(most)] + cut(pieces, from + 1, text.skip(most))->0)
    } else {
        longest_cut(pieces, from, text, most - 1)
    }
}

/// The parameters after the first `n` pieces have captured what they took.
pub open spec fn captured(
    params: ParamsView,
    pieces: Seq<PieceView>,
    values: Seq<Seq<char>>,
    n: int,
) -> ParamsView
    decreases n,
{
    if n <= 0 {
        params
    } else {
        let before = captured(params, pieces, values, n - 1);
        match pieces[n - 1] {
            PieceView::Text(_) => before,
            PieceView::Any(name) | PieceView::Num(name, _, _) => before.inserted(
                name,
                values[n - 1],
            ),
        }
    }
}

/// A name in braces.
pub open spec fn in_braces(name: Seq<char>) -> Seq<char> {
    seq!['{'] + name + seq!['}']
}

/// The first `n` pieces as they are shown in the matched path: literal text as it is,
/// a parameter by its name in braces.
pub open spec fn shown(pieces: Seq<PieceView>, n: int) -> Seq<char>
    decreases n,
{
    if n <= 0 {
        seq![]
    } else {
        shown(pieces, n - 1) + match pieces[n - 1] {
            PieceView::Text(text) => text,
            PieceView::Any(name) | PieceView::Num(name, _, _) => in_braces(name),
        }
    }
}

/// A segment of a pattern as it is shown in the matched path.
pub open spec fn label(wisp: WispView) -> Seq<char> {
    match wisp {
        WispView::Const(text) => text,
        WispView::Mixed(pieces) => shown(pieces, pieces.len() as int),
        WispView::Rest(_, name) => in_braces(name),
    }
}

/// The path after its next segment was matched by `wisp`, with the captures
/// `params`.
pub open spec fn past_segment(path: PathView, wisp: WispView, params: ParamsView) -> PathView {
    PathView {
        cursor: ((next_row(path) + 1) as usize, 0),
        params,
        matched_parts: path.matched_parts.push(label(wisp)),
        ..path
    }
}

/// The path after `wisp` has matched at its cursor, or `None` where it does not
/// match there.
pub open spec fn step(wisp: WispView, path: PathView) -> Option<PathView> {
    match wisp {
        WispView::Const(text) => if path.pick() == Some(text) {
            Some(past_segment(path, wisp, path.params))
        } else {
            None
        },
        WispView::Mixed(pieces) => match path.pick() {
            Some(segment) => match cut(pieces, 0, segment) {
                Some(values) => Some(
                    past_segment(
                        path,
                        wisp,
                        captured(path.params, pieces, values, pieces.len() as int),
                    ),
                ),
                None => None,
            },
            None => None,
        },
        WispView::Rest(kind, name) => if takes(kind, remaining(path).len()) {
            Some(
                PathView {
                    cursor: (path.parts.len() as usize, 0),
                    params: ParamsView {
                        greedy: true,
                        ..path.params.inserted(name, rest_text(path))
                    },
                    matched_parts: path.matched_parts.push(label(wisp)),
                    ..path
                },
            )
        } else {
            None
        },
    }
}

/// How far the wisps from `from` on come, one after the other: whether all match,
/// and the path where they stop.
pub open spec fn walked(wisps: Seq<WispView>, from: int, path: PathView) -> (bool, PathView)
    decreases wisps.len() - from,
{
    if from >= wisps.len() {
        (true, path)
    } else {
        match step(wisps[from], path) {
            Some(next) => walked(wisps, from + 1, next),
            None => (false, path),
        }
    }
}

/// What a pattern answers on a path, and the path that it leaves. Where it does not
/// match, the walk goes back to where it was; what was captured up to there is left
/// to the node that tried the pattern, which rolls it back.
pub open spec fn matching(wisps: Seq<WispView>, path: PathView) -> (bool, PathView) {
    let (matched, end) = walked(wisps, 0, path);
    if matched {
        (true, end)
    } else {
        (false, PathView { cursor: path.cursor, matched_parts: path.matched_parts, ..end })
    }
}

fn locate(path: &PathState) -> (row: usize)
    requires
        path@.pick() is Some,
    ensures
        row == next_row(path@),
        row < path.parts.len(),
{
    let (row, col) = path.cursor;
    if col < path.parts[row].as_str().unicode_len() {
        row
    } else {
        assert(row + 1 < path.parts.len());
        row + 1
    }
}

/// Whether a piece takes the characters between `from` and `to`.
fn takes_chars(piece: &Piece, chars: &Vec<char>, from: usize, to: usize) -> (r: bool)
    requires
        from <= to <= chars.len(),
    ensures
        r == piece_takes(piece@, chars@.subrange(from as int, to as int)),
{
    let ghost text = chars@.subrange(from as int, to as int);
    match piece {
        Piece::Text(literal) => text_of(chars, from, to) == *literal,
        Piece::Any(_) => from < to,
        Piece::Num(_, min, max) => {
            if from == to || to - from < *min {
                return false;
            }
            if let Some(most) = max {
                if to - from > *most {
                    return false;
                }
            }
            let mut i: usize = from;
            while i < to
                invariant
                    from <= i <= to <= chars.len(),
                    piece@ is Num,
                    text == chars@.subrange(from as int, to as int),
                    forall|j: int| 0 <= j < i - from ==> is_digit(#[trigger] text[j]),
                decreases to - i,
            {
                assert(text[i - from] == chars@[i as int]);
                if chars[i] < '0' || chars[i] > '9' {
                    return false;
                }
                i = i + 1;
            }
            true
        },
    }
}

/// Cuts the characters from `at` on for the pieces from `from` on.
fn find_cut(pieces: &Vec<Piece>, from: usize, chars: &Vec<char>, at: usize) -> (values: Option<
    Vec<String>,
>)
    requires
        from <= pieces.len(),
        at <= chars.len(),
    ensures
        match values {
            Some(vs) => cut(piece_views(pieces@), from as int, chars@.skip(at as int)) == Some(
                texts(vs@),
            ),
            None => cut(piece_views(pieces@), from as int, chars@.skip(at as int)) is None,
        },
    decreases pieces.len() - from,
{
    let ghost views = piece_views(pieces@);
    let ghost text = chars@.skip(at as int);
    let len = chars.len();
    if from == pieces.len() {
        if at == len {
            let none: Vec<String> = Vec::new();
            assert(texts(none@) =~= seq![]);
            return Some(none);
        }
        return None;
    }
    assert(views[from as int] == pieces@[from as int]@);
    let mut to: usize = len;
    loop
        invariant
            at <= to <= len,
            len == chars.len(),
            from < pieces.len(),
            views == piece_views(pieces@),
            text == chars@.skip(at as int),
            views[from as int] == pieces@[from as int]@,
            cut(views, from as int, text) == longest_cut(views, from as int, text, to - at),
        decreases to - at,
    {
        proof {
            assert(text.take(to - at) =~= chars@.subrange(at as int, to as int));
            assert(text.skip(to - at) =~= chars@.skip(to as int));
        }
        if takes_chars(&pieces[from], chars, at, to) {
            if let Some(mut values) = find_cut(pieces, from + 1, chars, to) {
                let ghost rest = texts(values@);
                values.insert(0, text_of(chars, at, to));
                assert(texts(values@) =~= seq![text.take(to - at)] + rest);
                return Some(values);
            }
        }
        if to == at {
            assert(longest_cut(views, from as int, text, -1) is None);
            return None;
        }
        to = to - 1;
    }
}

/// Captures what the pieces took.
fn capture(params: &mut PathParams, pieces: &Vec<Piece>, values: &Vec<String>)
    requires
        values.len() == pieces.len(),
    ensures
        final(params)@ == captured(
            old(params)@,
            piece_views(pieces@),
            texts(values@),
            pieces@.len() as int,
        ),
{
    let ghost before = params@;
    let ghost views = piece_views(pieces@);
    let mut i: usize = 0;
    while i < pieces.len()
        invariant
            i <= pieces.len(),
            values.len() == pieces.len(),
            views == piece_views(pieces@),
            params@ == captured(before, views, texts(values@), i as int),
        decreases pieces.len() - i,
    {
        assert(views[i as int] == pieces@[i as int]@);
        match &pieces[i] {
            Piece::Text(_) => {},
            Piece::Any(name) => params.insert(name.as_str(), values[i].clone()),
            Piece::Num(name, _, _) => params.insert(name.as_str(), values[i].clone()),
        }
        i = i + 1;
    }
}

fn push_braced(out: &mut String, name: &String)
    ensures
        final(out)@ == old(out)@ + in_braces(name@),
{
    let ghost before = out@;
    out.push('{');
    out.append(name.as_str());
    out.push('}');
    assert(out@ =~= before + in_braces(name@));
}

fn show(pieces: &Vec<Piece>) -> (text: String)
    ensures
        text@ == shown(piece_views(pieces@), pieces@.len() as int),
{
    let ghost views = piece_views(pieces@);
    let mut text = String::new();
    let mut i: usize = 0;
    while i < pieces.len()
        invariant
            i <= pieces.len(),
            views == piece_views(pieces@),
            text@ == shown(views, i as int),
        decreases pieces.len() - i,
    {
        assert(views[i as int] == pieces@[i as int]@);
        match &pieces[i] {
            Piece::Text(literal) => text.append(literal.as_str()),
            Piece::Any(name) => push_braced(&mut text, name),
            Piece::Num(name, _, _) => push_braced(&mut text, name),
        }
        i = i + 1;
    }
    text
}

/// Joins the segments that come next.
fn rest_of(path: &PathState) -> (rest: (usize, String))
    ensures
        rest.0 == remaining(path@).len(),
        rest.1@ == rest_text(path@),
{
    let ghost segments = remaining(path@);
    let mut text = String::new();
    let mut n: usize = 0;
    match path.pick() {
        Some(segment) => {
            let row = locate(path);
            text.append(segment);
            n = 1;
            assert(text@ =~= joined(segments, 1));
            let mut i: usize = row + 1;
            while i < path.parts.len()
                invariant
                    row < i <= path.parts.len(),
                    n == i - row,
                    row == next_row(path@),
                    path@.pick() is Some,
                    segments == remaining(path@),
                    text@ == joined(segments, n as int),
                decreases path.parts.len() - i,
            {
                text.push('/');
                text.append(path.parts[i].as_str());
                assert(segments[n as int] == path@.parts[i as int]);
                i = i + 1;
                n = n + 1;
                assert(text@ =~= joined(segments, n as int));
            }
            assert(n == segments.len());
            if path.end_slash {
                text.push('/');
            }
        },
        None => {
            assert(text@ =~= joined(segments, 0));
        },
    }
    (n, text)
}

proof fn lemma_cut_len(pieces: Seq<PieceView>, from: int, text: Seq<char>)
    requires
        0 <= from <= pieces.len(),
    ensures
        cut(pieces, from, text) matches Some(values) ==> values.len() == pieces.len() - from,
    decreases pieces.len() - from, text.len() + 2,
{
    if from < pieces.len() {
        lemma_longest_cut_len(pieces, from, text, text.len() as int);
    }
}

proof fn lemma_longest_cut_len(pieces: Seq<PieceView>, from: int, text: Seq<char>, most: int)
    requires
        0 <= from <= pieces.len(),
    ensures
        longest_cut(pieces, from, text, most) matches Some(values) ==> values.len() == pieces.len()
            - from,
    decreases pieces.len() - from, most + 1,
{
    if from < pieces.len() && 0 <= most <= text.len() {
        lemma_cut_len(pieces, from + 1, text.skip(most));
        lemma_longest_cut_len(pieces, from, text, most - 1);
    }
}

/// Tries one wisp at the cursor.
fn take_step(wisp: &Wisp, path: &mut PathState) -> (matched: bool)
    ensures
        match step(wisp@, old(path)@) {
            Some(next) => matched && final(path)@ == next,
            None => !matched && final(path)@ == old(path)@,
        },
{
    let ghost before = path@;
    match wisp {
        Wisp::Const(text) => {
            let here = match path.pick() {
                Some(segment) => segment.to_owned() == *text,
                None => false,
            };
            if !here {
                return false;
            }
            let row = locate(path);
            path.cursor = (row + 1, 0);
            path.matched_parts.push(text.clone());
        },
        Wisp::Mixed(pieces) => {
            let chars = match path.pick() {
                Some(segment) => chars_of(segment),
                None => return false,
            };
            assert(chars@.skip(0) =~= chars@);
            let values = match find_cut(pieces, 0, &chars, 0) {
                Some(values) => values,
                None => return false,
            };
            proof {
                lemma_cut_len(piece_views(pieces@), 0, chars@);
            }
            let row = locate(path);
            path.cursor = (row + 1, 0);
            capture(&mut path.params, pieces, &values);
            path.matched_parts.push(show(pieces));
        },
        Wisp::Rest(kind, name) => {
            let (n, text) = rest_of(path);
            let enough = match kind {
                RestKind::Any => true,
                RestKind::OneOrMore => n >= 1,
                RestKind::AtMostOne => n <= 1,
            };
            if !enough {
                return false;
            }
            path.cursor = (path.parts.len(), 0);
            path.params.insert_rest(name.as_str(), text);
            let mut shown_name = String::new();
            push_braced(&mut shown_name, name);
            assert(shown_name@ =~= in_braces(name@));
            path.matched_parts.push(shown_name);
        },
    }
    assert(path@ =~= step(wisp@, before)->0) by {
        assert(path@.matched_parts =~= before.matched_parts.push(label(wisp@)));
    }
    true
}

proof fn lemma_walk_keeps_matched(wisps: Seq<WispView>, from: int, path: PathView)
    ensures
        walked(wisps, from, path).1.matched_parts.len() >= path.matched_parts.len(),
        walked(wisps, from, path).1.matched_parts.take(path.matched_parts.len() as int)
            == path.matched_parts,
        walked(wisps, from, path).1.parts == path.parts,
    decreases wisps.len() - from,
{
    assert(path.matched_parts.take(path.matched_parts.len() as int) =~= path.matched_parts);
    if from < wisps.len() {
        if let Some(next) = step(wisps[from], path) {
            lemma_walk_keeps_matched(wisps, from + 1, next);
            let end = walked(wisps, from + 1, next).1;
            assert(end.matched_parts.take(path.matched_parts.len() as int)
                =~= end.matched_parts.take(next.matched_parts.len() as int).take(
                path.matched_parts.len() as int,
            ));
            assert(next.matched_parts.take(path.matched_parts.len() as int)
                =~= path.matched_parts);
        }
    }
}

/// Matches requests whose path goes on, from where the walk stands, as the pattern
/// says. A filter made of a malformed pattern never matches.
#[derive(Debug, PartialEq, Eq)]
pub struct PathFilter {
    raw_value: String,
    wisps: Option<Vec<Wisp>>,
}

/// What the error of a malformed pattern starts with.
pub open spec fn malformed_notice() -> Seq<char> {
    "malformed path pattern: "@
}

impl PathFilter {
    /// The pattern, as it was written.
    pub closed spec fn pattern(self) -> Seq<char> {
        self.raw_value@
    }

    /// The filter's pattern, read.
    pub open spec fn meaning(self) -> Option<Seq<WispView>> {
        parsed(self.pattern())
    }

    #[verifier::type_invariant]
    closed spec fn read_well(self) -> bool {
        match self.wisps {
            Some(ws) => parsed(self.raw_value@) == Some(wisp_views(ws@)),
            None => parsed(self.raw_value@) is None,
        }
    }

    /// A filter for the given pattern. A malformed pattern gives a filter that never
    /// matches.
    pub fn new<T: Into<String>>(value: T) -> (filter: PathFilter)
        ensures
            exists|text: String| #[trigger]
                call_ensures(T::into, (value,), text) && filter.pattern() == text@,
    {
        let raw_value: String = value.into();
        let wisps = read_pattern(raw_value.as_str());
        PathFilter { raw_value, wisps }
    }

    /// A filter for the given pattern.
    ///
    /// # Errors
    ///
    /// Returns an error that names the pattern when the pattern is malformed.
    pub fn try_new<T: Into<String>>(value: T) -> (filter: Result<PathFilter, String>)
        ensures
            exists|text: String| #[trigger]
                call_ensures(T::into, (value,), text) && match filter {
                    Ok(f) => parsed(text@) is Some && f.pattern() == text@,
                    Err(message) => parsed(text@) is None && message@ == malformed_notice()
                        + text@,
                },
    {
        let raw_value: String = value.into();
        match read_pattern(raw_value.as_str()) {
            Some(wisps) => Ok(PathFilter { raw_value, wisps: Some(wisps) }),
            None => {
                let mut message = String::from("malformed path pattern: ");
                message.append(raw_value.as_str());
                Err(message)
            },
        }
    }
}

impl Filter for PathFilter {
    open spec fn valid(&self) -> bool {
        true
    }

    open spec fn outcome(&self, w: World, verdict: Verdict, after: World) -> bool {
        match self.meaning() {
            Some(wisps) => {
                let (matched, path) = matching(wisps, w.path);
                verdict == said(matched) && after == (World { path, ..w })
            },
            None => verdict is Fail && after == w,
        }
    }

    open spec fn awaits(&self, at: Seq<Side>, key: usize) -> bool {
        at.len() == 0
    }

    open spec fn resumed(
        &self,
        at: Seq<Side>,
        answer: bool,
        w: World,
        verdict: Verdict,
        after: World,
    ) -> bool {
        at.len() == 0 && verdict == said(answer) && after == w
    }

    open spec fn segment(&self) -> Option<Seq<char>> {
        match self.meaning() {
            Some(wisps) => if wisps.len() > 0 {
                match wisps[0] {
                    WispView::Const(text) => Some(text),
                    _ => None,
                }
            } else {
                None
            },
            None => None,
        }
    }

    open spec fn sync(&self) -> bool {
        true
    }

    open spec fn named(&self) -> Seq<char> {
        "PathFilter"@
    }

    open spec fn described(&self) -> InfoView {
        InfoView::Path(self.pattern())
    }

    fn kind_name(&self) -> (name: &'static str) {
        "PathFilter"
    }

    fn info(&self) -> (info: FilterInfo) {
        FilterInfo::Path(self.raw_value.clone())
    }

    fn static_path_segment(&self) -> (segment: Option<&str>) {
        proof {
            use_type_invariant(self);
        }
        match &self.wisps {
            Some(wisps) => {
                if wisps.len() > 0 {
                    match &wisps[0] {
                        Wisp::Const(text) => {
                            proof {
                                lemma_first_decides(self);
                            }
                            Some(text.as_str())
                        },
                        _ => None,
                    }
                } else {
                    None
                }
            },
            None => None,
        }
    }

    fn is_sync(&self) -> (r: bool) {
        true
    }

    fn filter_sync(&self, req: &mut Request, path: &mut PathState) -> (matched: bool) {
        proof {
            use_type_invariant(self);
        }
        let wisps = match &self.wisps {
            Some(wisps) => wisps,
            None => return false,
        };
        let cursor = path.cursor;
        let parts = path.matched_parts.len();
        let ghost start = path@;
        let ghost views = wisp_views(wisps@);
        proof {
            lemma_walk_keeps_matched(views, 0, start);
        }
        let mut i: usize = 0;
        while i < wisps.len()
            invariant
                i <= wisps.len(),
                views == wisp_views(wisps@),
                walked(views, 0, start) == walked(views, i as int, path@),
                self.meaning() == Some(views),
                start == old(path)@,
                cursor == start.cursor,
                parts == start.matched_parts.len(),
                *req == *old(req),
                walked(views, 0, start).1.matched_parts.len() >= start.matched_parts.len(),
                walked(views, 0, start).1.matched_parts.take(parts as int) == start.matched_parts,
            decreases wisps.len() - i,
        {
            let ghost here = path@;
            assert(views[i as int] == wisps@[i as int]@);
            if !take_step(&wisps[i], path) {
                path.matched_parts.truncate(parts);
                path.cursor = cursor;
                assert(path@ =~= matching(views, start).1);
                return false;
            }
            i = i + 1;
        }
        true
    }

    fn filter(&self, req: &mut Request, path: &mut PathState) -> (progress: Progress) {
        Progress::Done(self.filter_sync(req, path))
    }

    fn resume(
        &self,
        pause: Pause,
        answer: bool,
        req: &mut Request,
        path: &mut PathState,
    ) -> (progress: Progress) {
        Progress::Done(answer)
    }
}

proof fn lemma_first_decides(filter: &PathFilter)
    requires
        filter.segment() is Some,
    ensures
        forall|w: World, verdict: Verdict, after: World|
            #![trigger filter.outcome(w, verdict, after)]
            w.path.pick() != filter.segment() ==> (filter.outcome(w, verdict, after) <==> (
            verdict is Fail && after == w)),
{
    let wisps = filter.meaning()->0;
    assert forall|w: World, verdict: Verdict, after: World|
        #![trigger filter.outcome(w, verdict, after)]
        w.path.pick() != filter.segment() implies (filter.outcome(w, verdict, after) <==> (
        verdict is Fail && after == w)) by {
        assert(step(wisps[0], w.path) is None);
        assert(walked(wisps, 0, w.path) == (false, w.path));
        assert(matching(wisps, w.path).1 =~= w.path);
    }
}

impl FilterExt for PathFilter {
    fn boxed(self) -> (boxed: FilterBox) {
        FilterBox(Box::new(self))
    }
}

} // verus!
