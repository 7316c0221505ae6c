//! Matching of byte strings from left to right.
//!
//! A [`Cursor`] is the mathematical model: a text and a position in it, or no
//! position once a step has failed. A [`Scanner`] is the executable cursor;
//! each of its steps returns the scanner whose view is the corresponding step
//! of the model.

use vstd::prelude::*;
use vstd::slice::slice_subrange;
use vstd::slice::slice_to_vec;
use vstd::string::StringSliceAdditionalSpecFns;

verus! {

/// The text holds `word` at position `at`.
pub open spec fn has_at(text: Seq<u8>, at: int, word: Seq<u8>) -> bool {
    &&& 0 <= at
    &&& at + word.len() <= text.len()
    &&& text.subrange(at, at + word.len()) == word
}

/// The first position from `from` on that holds the byte `stop`, or the
/// length of the text where there is none.
pub open spec fn index_of(text: Seq<u8>, from: int, stop: u8) -> int
    decreases text.len() - from,
{
    if from < 0 || from >= text.len() {
        text.len() as int
    } else if text[from] == stop {
        from
    } else {
        index_of(text, from + 1, stop)
    }
}

/// The first position from `from` on whose byte is not in `class`, or the
/// length of the text where all are.
pub open spec fn run_end(text: Seq<u8>, from: int, class: Seq<u8>) -> int
    decreases text.len() - from,
{
    if from < 0 || from >= text.len() {
        text.len() as int
    } else if !class.contains(text[from]) {
        from
    } else {
        run_end(text, from + 1, class)
    }
}

/// `index_of` gives the first `stop` from `from` on, or the end of the text.
pub proof fn lemma_index_of_bounds(text: Seq<u8>, from: int, stop: u8)
    requires
        0 <= from <= text.len(),
    ensures
        from <= index_of(text, from, stop) <= text.len(),
        index_of(text, from, stop) < text.len() ==> text[index_of(text, from, stop)] == stop,
        forall|j: int| from <= j < index_of(text, from, stop) ==> text[j] != stop,
    decreases text.len() - from,
{
    if from < text.len() && text[from] != stop {
        lemma_index_of_bounds(text, from + 1, stop);
    }
}

/// `run_end` gives the end of the longest run of `class` that begins at
/// `from`.
pub proof fn lemma_run_end_bounds(text: Seq<u8>, from: int, class: Seq<u8>)
    requires
        0 <= from <= text.len(),
    ensures
        from <= run_end(text, from, class) <= text.len(),
        run_end(text, from, class) < text.len() ==> !class.contains(
            text[run_end(text, from, class)],
        ),
        forall|j: int| from <= j < run_end(text, from, class) ==> class.contains(text[j]),
    decreases text.len() - from,
{
    if from < text.len() && class.contains(text[from]) {
        lemma_run_end_bounds(text, from + 1, class);
    }
}

/// A text and a position in it; `at` is `None` once a step did not match.
pub struct Cursor {
    pub text: Seq<u8>,
    pub at: Option<int>,
}

impl Cursor {
    /// The cursor at position `at` of `text`.
    pub open spec fn start(text: Seq<u8>, at: int) -> Cursor {
        Cursor { text, at: if 0 <= at <= text.len() { Some(at) } else { None } }
    }

    /// The cursor after a step that did not match.
    pub open spec fn failed(self) -> Cursor {
        Cursor { text: self.text, at: None }
    }

    /// The cursor at another position of the same text.
    pub open spec fn moved(self, at: int) -> Cursor {
        Cursor { text: self.text, at: Some(at) }
    }

    /// Every step so far has matched.
    pub open spec fn ok(self) -> bool {
        self.at is Some
    }

    /// The position lies inside the text.
    pub open spec fn wf(self) -> bool {
        self.at is Some ==> 0 <= self.at->0 <= self.text.len()
    }

    /// Steps over `n` bytes, whatever they are.
    pub open spec fn skip(self, n: nat) -> Cursor {
        if self.at is Some && self.at->0 + n <= self.text.len() {
            self.moved(self.at->0 + n)
        } else {
            self.failed()
        }
    }

    /// Steps over the bytes of `word`, which must stand at the position.
    pub open spec fn word(self, word: &str) -> Cursor {
        if self.at is Some && has_at(self.text, self.at->0, word.spec_bytes()) {
            self.moved(self.at->0 + word.spec_bytes().len())
        } else {
            self.failed()
        }
    }

    /// Steps over `word` where it stands at the position, and stays otherwise.
    pub open spec fn maybe_word(self, word: &str) -> Cursor {
        if self.word(word).ok() {
            self.word(word)
        } else {
            self
        }
    }

    /// Moves to the first `stop` byte at or after the position; fails where
    /// the rest of the text holds none.
    pub open spec fn until(self, stop: u8) -> Cursor {
        if self.at is Some && index_of(self.text, self.at->0, stop) < self.text.len() {
            self.moved(index_of(self.text, self.at->0, stop))
        } else {
            self.failed()
        }
    }

    /// Steps over the longest run of bytes of `class`; fails where the run is
    /// empty.
    pub open spec fn run(self, class: &str) -> Cursor {
        if self.at is Some && run_end(self.text, self.at->0, class.spec_bytes()) > self.at->0 {
            self.moved(run_end(self.text, self.at->0, class.spec_bytes()))
        } else {
            self.failed()
        }
    }

    /// Matches only at the end of the text.
    pub open spec fn end(self) -> Cursor {
        if self.at is Some && self.at->0 == self.text.len() {
            self
        } else {
            self.failed()
        }
    }

    /// The bytes between this cursor and a later one.
    pub open spec fn upto(self, later: Cursor) -> Seq<u8> {
        self.text.subrange(self.at->0, later.at->0)
    }
}

/// The executable cursor over a borrowed line.
#[derive(Clone, Copy)]
pub struct Scanner<'a> {
    pub line: &'a [u8],
    pub at: Option<usize>,
}

impl<'a> View for Scanner<'a> {
    type V = Cursor;

    open spec fn view(&self) -> Cursor {
        Cursor {
            text: self.line@,
            at: match self.at {
                Some(p) => Some(p as int),
                None => None,
            },
        }
    }
}

impl<'a> Scanner<'a> {
    /// The scanner at position `at` of `line`.
    pub fn start(line: &'a [u8], at: usize) -> (r: Scanner<'a>)
        ensures
            r@ == Cursor::start(line@, at as int),
            r@.wf(),
    {
        if at <= line.len() {
            Scanner { line, at: Some(at) }
        } else {
            Scanner { line, at: None }
        }
    }

    /// Whether every step so far has matched.
    pub fn ok(&self) -> (r: bool)
        ensures
            r == self@.ok(),
    {
        self.at.is_some()
    }

    /// Steps over `n` bytes, whatever they are.
    pub fn skip(self, n: usize) -> (r: Scanner<'a>)
        requires
            self@.wf(),
        ensures
            r@ == self@.skip(n as nat),
            r@.wf(),
    {
        match self.at {
            Some(p) => {
                if self.line.len() - p >= n {
                    Scanner { line: self.line, at: Some(p + n) }
                } else {
                    Scanner { line: self.line, at: None }
                }
            },
            None => Scanner { line: self.line, at: None },
        }
    }

    /// Steps over the bytes of `word`, which must stand at the position.
    pub fn word(self, word: &str) -> (r: Scanner<'a>)
        requires
            self@.wf(),
        ensures
            r@ == self@.word(word),
            r@.wf(),
    {
        match self.at {
            Some(p) => {
                let bytes = word.as_bytes();
                if self.line.len() - p >= bytes.len() && holds(self.line, p, bytes) {
                    Scanner { line: self.line, at: Some(p + bytes.len()) }
                } else {
                    Scanner { line: self.line, at: None }
                }
            },
            None => Scanner { line: self.line, at: None },
        }
    }

    /// Steps over `word` where it stands at the position, and stays
    /// otherwise.
    pub fn maybe_word(self, word: &str) -> (r: Scanner<'a>)
        requires
            self@.wf(),
        ensures
            r@ == self@.maybe_word(word),
            r@.wf(),
    {
        let next = self.word(word);
        if next.ok() {
            next
        } else {
            self
        }
    }

    /// Moves to the first `stop` byte at or after the position.
    pub fn until(self, stop: u8) -> (r: Scanner<'a>)
        requires
            self@.wf(),
        ensures
            r@ == self@.until(stop),
            r@.wf(),
    {
        match self.at {
            Some(p) => {
                let mut i: usize = p;
                proof {
                    lemma_index_of_bounds(self.line@, p as int, stop);
                }
                while i < self.line.len() && self.line[i] != stop
                    invariant
                        p <= i <= self.line@.len(),
                        index_of(self.line@, i as int, stop) == index_of(
                            self.line@,
                            p as int,
                            stop,
                        ),
                    decreases self.line@.len() - i,
                {
                    i += 1;
                }
                if i < self.line.len() {
                    Scanner { line: self.line, at: Some(i) }
                } else {
                    Scanner { line: self.line, at: None }
                }
            },
            None => Scanner { line: self.line, at: None },
        }
    }

    /// Steps over the longest run of bytes of `class`, which must not be
    /// empty.
    pub fn run(self, class: &str) -> (r: Scanner<'a>)
        requires
            self@.wf(),
        ensures
            r@ == self@.run(class),
            r@.wf(),
    {
        match self.at {
            Some(p) => {
                let members = class.as_bytes();
                let mut i: usize = p;
                while i < self.line.len() && member(members, self.line[i])
                    invariant
                        p <= i <= self.line@.len(),
                        members@ == class.spec_bytes(),
                        run_end(self.line@, i as int, members@) == run_end(
                            self.line@,
                            p as int,
                            members@,
                        ),
                    decreases self.line@.len() - i,
                {
                    i += 1;
                }
                if i > p {
                    Scanner { line: self.line, at: Some(i) }
                } else {
                    Scanner { line: self.line, at: None }
                }
            },
            None => Scanner { line: self.line, at: None },
        }
    }

    /// Matches only at the end of the line.
    pub fn end(self) -> (r: Scanner<'a>)
        requires
            self@.wf(),
        ensures
            r@ == self@.end(),
            r@.wf(),
    {
        match self.at {
            Some(p) => {
                if p == self.line.len() {
                    self
                } else {
                    Scanner { line: self.line, at: None }
                }
            },
            None => self,
        }
    }

    /// A copy of the bytes between this scanner and a later one on the same
    /// line.
    pub fn upto(&self, later: &Scanner<'a>) -> (r: Vec<u8>)
        requires
            self@.ok(),
            later@.ok(),
            self@.text == later@.text,
            self@.at->0 <= later@.at->0,
            later@.wf(),
        ensures
            r@ == self@.upto(later@),
    {
        match (self.at, later.at) {
            (Some(a), Some(b)) => slice_to_vec(slice_subrange(self.line, a, b)),
            _ => Vec::new(),
        }
    }
}

/// Whether `line` holds `word` at position `at`.
pub fn holds(line: &[u8], at: usize, word: &[u8]) -> (r: bool)
    requires
        at <= line@.len(),
    ensures
        r == has_at(line@, at as int, word@),
{
    let n: usize = word.len();
    if line.len() - at < n {
        return false;
    }
    let mut i: usize = 0;
    while i < n
        invariant
            i <= n,
            n == word@.len(),
            at + n <= line@.len() <= usize::MAX,
            forall|j: int| 0 <= j < i ==> line@[at + j] == word@[j],
        decreases n - i,
    {
        if line[at + i] != word[i] {
            assert(line@.subrange(at as int, at + n)[i as int] != word@[i as int]);
            return false;
        }
        i += 1;
    }
    assert(line@.subrange(at as int, at + n) =~= word@);
    true
}

/// Whether `b` is one of the bytes of `class`.
pub fn member(class: &[u8], b: u8) -> (r: bool)
    ensures
        r == class@.contains(b),
{
    let mut i: usize = 0;
    while i < class.len()
        invariant
            i <= class@.len(),
            forall|j: int| 0 <= j < i ==> class@[j] != b,
        decreases class@.len() - i,
    {
        if class[i] == b {
            return true;
        }
        i += 1;
    }
    false
}

} // verus!
