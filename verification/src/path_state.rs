//! The position of a detection inside the request path, and the parameters that
//! it has captured on the way.

use vstd::prelude::*;

use crate::text::{chars_of, texts};

verus! {

/// What a [`PathParams`] holds: the captured pairs in order of first capture,
/// whether a rest parameter was captured, and the values that later captures of
/// the same name replaced, oldest first, each with its place among the pairs.
#[verifier::ext_equal]
pub struct ParamsView {
    pub entries: Seq<(Seq<char>, Seq<char>)>,
    pub greedy: bool,
    pub undo: Seq<(int, Seq<char>)>,
}

/// The place of the first pair from `from` on that has the name `name`.
pub open spec fn name_index(
    entries: Seq<(Seq<char>, Seq<char>)>,
    name: Seq<char>,
    from: int,
) -> Option<int>
    decreases entries.len() - from,
{
    if from >= entries.len() {
        None
    } else if entries[from].0 == name {
        Some(from)
    } else {
        name_index(entries, name, from + 1)
    }
}

/// The pairs after the replacements beyond the first `keep` have been taken back,
/// the latest first.
pub open spec fn undone(
    entries: Seq<(Seq<char>, Seq<char>)>,
    undo: Seq<(int, Seq<char>)>,
    keep: int,
) -> Seq<(Seq<char>, Seq<char>)>
    decreases undo.len(),
{
    if undo.len() == 0 || undo.len() <= keep {
        entries
    } else {
        let (at, value) = undo.last();
        let restored = if 0 <= at < entries.len() {
            entries.update(at, (entries[at].0, value))
        } else {
            entries
        };
        undone(restored, undo.drop_last(), keep)
    }
}

/// The first `n` elements, or all where there are fewer.
pub open spec fn at_most<A>(s: Seq<A>, n: int) -> Seq<A> {
    if n < s.len() {
        s.take(n)
    } else {
        s
    }
}

impl ParamsView {
    /// No parameter captured yet.
    pub open spec fn empty() -> ParamsView {
        ParamsView { entries: seq![], greedy: false, undo: seq![] }
    }

    /// The value captured under `name`.
    pub open spec fn lookup(self, name: Seq<char>) -> Option<Seq<char>> {
        match name_index(self.entries, name, 0) {
            Some(i) => Some(self.entries[i].1),
            None => None,
        }
    }

    /// The parameters after `name` has been captured with `value`.
    pub open spec fn inserted(self, name: Seq<char>, value: Seq<char>) -> ParamsView {
        match name_index(self.entries, name, 0) {
            Some(i) => ParamsView {
                entries: self.entries.update(i, (name, value)),
                undo: self.undo.push((i, self.entries[i].1)),
                ..self
            },
            None => ParamsView { entries: self.entries.push((name, value)), ..self },
        }
    }

    /// The parameters taken back to the given snapshot.
    pub open spec fn rolled_back(self, snapshot: (nat, bool, nat)) -> ParamsView {
        ParamsView {
            entries: at_most(
                undone(self.entries, self.undo, snapshot.2 as int),
                snapshot.0 as int,
            ),
            greedy: snapshot.1,
            undo: at_most(self.undo, snapshot.2 as int),
        }
    }

    /// A mark to roll back to.
    pub open spec fn snapshot(self) -> (nat, bool, nat) {
        (self.entries.len(), self.greedy, self.undo.len())
    }
}

/// The path parameters captured so far.
#[derive(Debug, PartialEq, Eq)]
pub struct PathParams {
    entries: Vec<(String, String)>,
    greedy: bool,
    undo: Vec<(usize, String)>,
}

impl View for PathParams {
    type V = ParamsView;

    closed spec fn view(&self) -> ParamsView {
        ParamsView {
            entries: self.entries@.map_values(|e: (String, String)| (e.0@, e.1@)),
            greedy: self.greedy,
            undo: self.undo@.map_values(|e: (usize, String)| (e.0 as int, e.1@)),
        }
    }
}

impl PathParams {
    /// No parameters.
    pub fn new() -> (params: PathParams)
        ensures
            params@ == ParamsView::empty(),
    {
        let params = PathParams { entries: Vec::new(), greedy: false, undo: Vec::new() };
        assert(params@ =~= ParamsView::empty());
        params
    }

    /// How many parameters are captured.
    pub fn len(&self) -> (n: usize)
        ensures
            n == self@.entries.len(),
    {
        self.entries.len()
    }

    /// Whether a rest parameter is among the captured ones.
    pub fn greedy(&self) -> (r: bool)
        ensures
            r == self@.greedy,
    {
        self.greedy
    }

    fn position(&self, name: &str) -> (at: Option<usize>)
        ensures
            match at {
                Some(i) => name_index(self@.entries, name@, 0) == Some(i as int) && i
                    < self.entries.len(),
                None => name_index(self@.entries, name@, 0) is None,
            },
    {
        let wanted = name.to_owned();
        let mut i: usize = 0;
        while i < self.entries.len()
            invariant
                i <= self.entries.len(),
                wanted@ == name@,
                name_index(self@.entries, name@, 0) == name_index(self@.entries, name@, i as int),
            decreases self.entries.len() - i,
        {
            if self.entries[i].0 == wanted {
                return Some(i);
            }
            i = i + 1;
        }
        None
    }

    /// The value captured under `name`.
    pub fn get(&self, name: &str) -> (value: Option<&String>)
        ensures
            match value {
                Some(text) => self@.lookup(name@) == Some(text@),
                None => self@.lookup(name@) is None,
            },
    {
        match self.position(name) {
            Some(i) => Some(&self.entries[i].1),
            None => None,
        }
    }

    /// Whether a value was captured under `name`.
    pub fn contains_key(&self, name: &str) -> (r: bool)
        ensures
            r == (self@.lookup(name@) is Some),
    {
        self.position(name).is_some()
    }

    /// Captures `value` under `name`, replacing an earlier capture of that name.
    pub fn insert(&mut self, name: &str, value: String)
        ensures
            final(self)@ == old(self)@.inserted(name@, value@),
    {
        let ghost before = self@;
        match self.position(name) {
            Some(i) => {
                let earlier = self.entries[i].1.clone();
                self.undo.push((i, earlier));
                self.entries.set(i, (name.to_owned(), value));
            },
            None => {
                self.entries.push((name.to_owned(), value));
            },
        }
        assert(self@ =~= before.inserted(name@, value@));
    }

    /// Captures `value` under `name` as the rest parameter.
    pub fn insert_rest(&mut self, name: &str, value: String)
        ensures
            final(self)@ == (ParamsView { greedy: true, ..old(self)@.inserted(name@, value@) }),
    {
        self.insert(name, value);
        self.greedy = true;
    }

    /// A mark that [`PathParams::rollback`] can come back to.
    pub fn snapshot(&self) -> (mark: (usize, bool, usize))
        ensures
            (mark.0 as nat, mark.1, mark.2 as nat) == self@.snapshot(),
    {
        (self.entries.len(), self.greedy, self.undo.len())
    }

    /// Takes back every capture made since `snapshot`.
    pub fn rollback(&mut self, snapshot: (usize, bool, usize))
        ensures
            final(self)@ == old(self)@.rolled_back(
                (snapshot.0 as nat, snapshot.1, snapshot.2 as nat),
            ),
    {
        let ghost before = self@;
        proof {
            assert(at_most(before.undo, before.undo.len() as int) =~= before.undo);
        }
        while self.undo.len() > snapshot.2
            invariant
                self@.greedy == before.greedy,
                self@.undo.len() <= before.undo.len(),
                self@.undo == before.undo.take(self@.undo.len() as int),
                self@.undo.len() >= snapshot.2 || self@.undo == before.undo,
                undone(self@.entries, self@.undo, snapshot.2 as int) == undone(
                    before.entries,
                    before.undo,
                    snapshot.2 as int,
                ),
            decreases self.undo.len(),
        {
            let ghost now = self@;
            match self.undo.pop() {
                Some((at, value)) => {
                    if at < self.entries.len() {
                        let name = self.entries[at].0.clone();
                        self.entries.set(at, (name, value));
                    }
                    proof {
                        assert(now.undo.last() == (at as int, value@));
                        assert(self@.undo =~= now.undo.drop_last());
                        let restored = if at < now.entries.len() {
                            now.entries.update(at as int, (now.entries[at as int].0, value@))
                        } else {
                            now.entries
                        };
                        assert(self@.entries =~= restored);
                    }
                },
                None => {},
            }
        }
        let ghost middle = self@;
        self.entries.truncate(snapshot.0);
        self.greedy = snapshot.1;
        assert(self@ =~= before.rolled_back(
            (snapshot.0 as nat, snapshot.1, snapshot.2 as nat),
        )) by {
            assert(undone(middle.entries, middle.undo, snapshot.2 as int) == middle.entries);
            assert(self@.entries =~= at_most(middle.entries, snapshot.0 as int));
        }
    }
}

impl Default for PathParams {
    fn default() -> (params: PathParams)
        ensures
            params@ == ParamsView::empty(),
    {
        PathParams::new()
    }
}

/// The state of a walk over the characters of a path: the finished parts, and
/// the characters of the part that is under way.
pub open spec fn split_walk(path: Seq<char>) -> (Seq<Seq<char>>, Seq<char>)
    decreases path.len(),
{
    if path.len() == 0 {
        (seq![], seq![])
    } else {
        let (done, part) = split_walk(path.drop_last());
        if path.last() != '/' {
            (done, part.push(path.last()))
        } else if part.len() == 0 {
            (done, part)
        } else {
            (done.push(part), seq![])
        }
    }
}

/// The parts of a path: what stands between its slashes, without the empty ones.
pub open spec fn path_parts(path: Seq<char>) -> Seq<Seq<char>> {
    let (done, part) = split_walk(path);
    if part.len() == 0 {
        done
    } else {
        done.push(part)
    }
}

/// Splits a path into its parts.
pub fn split_path(path: &str) -> (parts: Vec<String>)
    ensures
        texts(parts@) == path_parts(path@),
{
    let chars = chars_of(path);
    let mut parts: Vec<String> = Vec::new();
    let mut part = String::new();
    let mut i: usize = 0;
    proof {
        assert(chars@.take(0) =~= Seq::<char>::empty());
        assert(texts(parts@) =~= seq![]);
    }
    while i < chars.len()
        invariant
            i <= chars.len(),
            chars@ == path@,
            split_walk(chars@.take(i as int)) == (texts(parts@), part@),
        decreases chars.len() - i,
    {
        let c = chars[i];
        proof {
            assert(chars@.take(i + 1).drop_last() =~= chars@.take(i as int));
            assert(chars@.take(i + 1).last() == c);
        }
        if c != '/' {
            part.push(c);
        } else if !part.as_str().is_empty() {
            let ghost done = texts(parts@);
            let ghost text = part@;
            parts.push(part);
            part = String::new();
            assert(texts(parts@) =~= done.push(text));
        }
        i = i + 1;
    }
    proof {
        assert(chars@.take(i as int) =~= path@);
    }
    if !part.as_str().is_empty() {
        let ghost done = texts(parts@);
        let ghost text = part@;
        parts.push(part);
        assert(texts(parts@) =~= done.push(text));
    }
    parts
}

/// What a [`PathState`] holds. The cursor names a part, and a character in it.
#[verifier::ext_equal]
pub struct PathView {
    pub parts: Seq<Seq<char>>,
    pub cursor: (usize, usize),
    pub params: ParamsView,
    pub end_slash: bool,
    pub once_ended: bool,
    pub matched_parts: Seq<Seq<char>>,
}

/// What a node of the routing tree remembers of the path when it is entered.
pub struct Mark {
    pub cursor: (usize, usize),
    pub params: (nat, bool, nat),
    pub matched_parts: nat,
}

impl PathView {
    /// The start of the walk over `path`.
    pub open spec fn start(path: Seq<char>) -> PathView {
        PathView {
            parts: path_parts(path),
            cursor: (0, 0),
            params: ParamsView::empty(),
            end_slash: path.len() > 0 && path.last() == '/',
            once_ended: false,
            matched_parts: seq![],
        }
    }

    /// The segment that comes next: what is left of the part under the cursor,
    /// or the part after it where nothing is left.
    pub open spec fn pick(self) -> Option<Seq<char>> {
        let (row, col) = self.cursor;
        if row >= self.parts.len() {
            None
        } else if col < self.parts[row as int].len() {
            Some(self.parts[row as int].skip(col as int))
        } else if row + 1 < self.parts.len() {
            Some(self.parts[row + 1])
        } else {
            None
        }
    }

    /// Whether every part has been walked over.
    pub open spec fn is_ended(self) -> bool {
        self.cursor.0 >= self.parts.len()
    }

    /// What a node remembers when it is entered here.
    pub open spec fn mark(self) -> Mark {
        Mark {
            cursor: self.cursor,
            params: self.params.snapshot(),
            matched_parts: self.matched_parts.len(),
        }
    }

    /// The path taken back to a mark. That the end was reached once is kept.
    pub open spec fn rolled_back(self, mark: Mark) -> PathView {
        PathView {
            cursor: mark.cursor,
            params: self.params.rolled_back(mark.params),
            matched_parts: at_most(self.matched_parts, mark.matched_parts as int),
            ..self
        }
    }
}

/// The walk of one detection over the parts of a request path. The path is taken
/// as it stands: a caller decodes it first.
#[derive(Debug, PartialEq, Eq)]
pub struct PathState {
    pub parts: Vec<String>,
    pub cursor: (usize, usize),
    pub params: PathParams,
    pub end_slash: bool,
    pub once_ended: bool,
    pub matched_parts: Vec<String>,
}

impl View for PathState {
    type V = PathView;

    open spec fn view(&self) -> PathView {
        PathView {
            parts: texts(self.parts@),
            cursor: self.cursor,
            params: self.params@,
            end_slash: self.end_slash,
            once_ended: self.once_ended,
            matched_parts: texts(self.matched_parts@),
        }
    }
}

impl PathState {
    /// Starts the walk over a borrowed path.
    pub fn from_borrowed_path(path: &str) -> (state: PathState)
        ensures
            state@ == PathView::start(path@),
    {
        let chars = chars_of(path);
        let end_slash = chars.len() > 0 && chars[chars.len() - 1] == '/';
        let state = PathState {
            parts: split_path(path),
            cursor: (0, 0),
            params: PathParams::new(),
            end_slash,
            once_ended: false,
            matched_parts: Vec::new(),
        };
        assert(state@ =~= PathView::start(path@));
        state
    }

    /// Starts the walk over an owned path.
    pub fn from_owned_path(path: String) -> (state: PathState)
        ensures
            state@ == PathView::start(path@),
    {
        PathState::from_borrowed_path(path.as_str())
    }

    /// The parts of the path.
    pub fn parts(&self) -> (parts: &Vec<String>)
        ensures
            *parts == self.parts,
    {
        &self.parts
    }

    /// The segment that comes next.
    pub fn pick(&self) -> (segment: Option<&str>)
        ensures
            match segment {
                Some(s) => self@.pick() == Some(s@),
                None => self@.pick() is None,
            },
    {
        let (row, col) = self.cursor;
        if row >= self.parts.len() {
            return None;
        }
        let part = self.parts[row].as_str();
        let len = part.unicode_len();
        if col < len {
            let rest = part.substring_char(col, len);
            assert(rest@ =~= self@.parts[row as int].skip(col as int));
            Some(rest)
        } else if row + 1 < self.parts.len() {
            Some(self.parts[row + 1].as_str())
        } else {
            None
        }
    }

    /// Whether every part has been walked over.
    pub fn is_ended(&self) -> (r: bool)
        ensures
            r == self@.is_ended(),
    {
        self.cursor.0 >= self.parts.len()
    }
}

impl Default for PathState {
    /// The walk over the empty path.
    fn default() -> (state: PathState)
        ensures
            state@ == PathView::start(seq![]),
    {
        let path = String::new();
        PathState::from_borrowed_path(path.as_str())
    }
}

} // verus!
